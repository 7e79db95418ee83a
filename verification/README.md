# gigatoken

Byte-level BPE and SentencePiece BPE tokenizers, verified with Verus: loading,
pretokenizing, encoding, decoding, counting, training, and the splitting of documents,
files and batches that parallel encoding rests on.

- `src/` is the verified library. Each public function states in its contract what it
  returns; what holds between functions stands in public proof functions.
- `tests/` runs the library on concrete values, with the outside crates linked.
- `app/` is the program around it: arguments, files, tables, threads and JSON.

## Where to look

| Module | What it holds |
| --- | --- |
| `pretokenize` | the GPT-2 scheme, its fast scanners, safe cuts of a document |
| `bpe` | merging, caches, added tokens, the byte-level tokenizer |
| `sentencepiece` | normalizers, charsmaps, units, the SentencePiece tokenizer |
| `load_tokenizer` | tokenizer files and rank files |
| `input` | documents of texts, JSON lines and files, and their counts |
| `batch` | chunks, gathering, ragged and padded results |
| `bpe_train` | training a vocabulary |
| `encode` | lines, one by one or lazily |

## What is proved of the whole

- Decoding gives back what was encoded: `bpe::round_trip` (without normalization, for
  texts whose bytes have tokens), `sentencepiece::laws` (the text where only marks are
  put, else its normal form), and for loaded files `load_tokenizer::bpe_laws` and
  `load_tokenizer::laws`.
- Encoding a document in parts is encoding it whole: `bpe::fragments`, `batch::laws`.
  The documents and the added tokens are valid UTF-8. The laws are about the GPT-2
  scheme, the one with a splitter here.
- Cutting files and texts into chunks keeps their documents: `input::laws`. For JSON
  lines each line holds its text.
- The raw path of SentencePiece is the normalized one, and merging by units is merging
  the whole: `sentencepiece::laws`.
- A lookup of whole words is what merging gives: `bpe::words`.

What the outside crates do is not proved. Each call of one is a small function marked
`external_body`, whose doc comment names the call and says what is claimed of it.

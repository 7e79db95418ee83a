//! Laws: which documents a file holds, what its name says of it, and how often its
//! pretokens count.

use vstd::prelude::*;
use vstd::utf8::encode_utf8;

use crate::input::documents::docs;
use crate::input::file_source::{
    compression_of, content_of, dot_gz, dot_jsonl, dot_parquet, dot_zst, dot_zstd, ends_with,
    file_ranges, ranges_from, region_docs, Compression, ContentFormat, DocFormat,
};
use crate::input::documents::{lemma_scan_at, scan_at};
use crate::input::counting::pretokens_of;
use crate::input::frequencies::{
    counts_rows, part_rows, part_start, row_adds, row_has, rows_add, rows_have, weight, Row,
};
use crate::input::jsonl::{json_text, jsonl_docs, lemma_line_start, line_start};
use crate::input::laws::{lemma_docs_shift, lemma_jsonl_shift};
use crate::pretokenize::counts::{adds_list, counted, lemma_occurrences_concat, occurrences, sums};
use crate::pretokenize::gpt2::pretokens;
use crate::search::{first_at, first_byte, lemma_first_at, lemma_first_byte};
use crate::seqs::{lemma_flatten_concat, lemma_flatten_one, occurs_at};
use crate::text::lemma_ascii_text;

verus! {

// ---------------------------------------------------------------------------
// Documents
// ---------------------------------------------------------------------------

/// The documents of a text: up to its first separator, unless nothing stands before
/// it, and then those of what stands behind it. A text without the separator is one
/// document, and so is any under an empty one; the empty text has none.
pub proof fn lemma_documents(s: Seq<u8>, sep: Seq<u8>, at: int)
    ensures
        s.len() == 0 ==> docs(s, sep) == Seq::<Seq<u8>>::empty(),
        s.len() > 0 && sep.len() == 0 ==> docs(s, sep) == seq![s],
        s.len() > 0 && sep.len() > 0 && (forall|i: int|
            0 <= i ==> !#[trigger] occurs_at(s, sep, i)) ==> docs(s, sep) == seq![s],
        sep.len() > 0 && occurs_at(s, sep, at) && (forall|i: int|
            0 <= i < at ==> !#[trigger] occurs_at(s, sep, i)) ==> docs(s, sep) == (if at > 0 {
            seq![s.take(at)]
        } else {
            Seq::<Seq<u8>>::empty()
        }) + docs(s.skip(at + sep.len()), sep),
{
    assert(s.skip(0) =~= s);
    lemma_first_at(s, sep, 0);
    if sep.len() > 0 && occurs_at(s, sep, at) && (forall|i: int|
        0 <= i < at ==> !#[trigger] occurs_at(s, sep, i)) {
        let k = first_at(s, sep, 0)->0;
        assert(k == at);
        assert(s.subrange(0, at) =~= s.take(at));
        lemma_docs_shift(s, sep, at + sep.len(), 0);
    }
}

/// The documents of JSON lines, by the first line: an empty line is passed over; the
/// field of any other is a document where it is a text, and those of the lines behind
/// it follow; where it is none, there are no more.
pub proof fn lemma_json_lines(line: Seq<u8>, rest: Seq<u8>, field: Seq<char>)
    requires
        !line.contains('\n' as u8),
    ensures
        jsonl_docs(Seq::empty(), field, 0) == Seq::<Seq<u8>>::empty(),
        line.len() == 0 ==> jsonl_docs(seq!['\n' as u8] + rest, field, 0) == jsonl_docs(
            rest,
            field,
            0,
        ),
        line.len() > 0 ==> match json_text(line, field) {
            Some(text) => {
                &&& jsonl_docs(line, field, 0) == seq![encode_utf8(text)]
                &&& jsonl_docs(line + seq!['\n' as u8] + rest, field, 0) == seq![encode_utf8(text)]
                    + jsonl_docs(rest, field, 0)
            },
            None => {
                &&& jsonl_docs(line, field, 0) == Seq::<Seq<u8>>::empty()
                &&& jsonl_docs(line + seq!['\n' as u8] + rest, field, 0) == Seq::<
                    Seq<u8>,
                >::empty()
            },
        },
{
    let n = line.len() as int;
    if n == 0 {
        let s = seq!['\n' as u8] + rest;
        assert(s.skip(1) =~= rest);
        lemma_jsonl_shift(s, field, 1, 0);
        assert(s[0] == 0x0A);
        assert(line_start(s, 0) == line_start(s, 1));
        assert(jsonl_docs(s, field, 0) == jsonl_docs(s, field, 1)) by {
            lemma_line_start(s, 1);
        }
    } else {
        let s = line + seq!['\n' as u8] + rest;
        assert(s[n] == 0x0A);
        assert(line[0] != 0x0A);
        assert(s[0] == line[0]);
        lemma_first_byte(s, 0x0A, 0);
        lemma_first_byte(line, 0x0A, 0);
        let at = first_byte(s, 0x0A, 0)->0;
        if at < n {
            assert(line[at] == s[at]);
        }
        assert(at == n);
        assert(s.subrange(0, n) =~= line);
        assert(line.subrange(0, n) =~= line);
        assert(first_byte(line, 0x0A, 0) is None);
        assert(s.skip(n + 1) =~= rest);
        lemma_jsonl_shift(s, field, n + 1, 0);
        if json_text(line, field) is Some {
            assert(jsonl_docs(line, field, 0) =~= seq![encode_utf8(json_text(line, field)->0)]);
        }
    }
}

/// The documents of a file by its format: those of its JSON lines; those between the
/// separators of a text; or the whole, empty or not, where a text has no separator.
pub proof fn lemma_file_documents(s: Seq<u8>, format: DocFormat)
    ensures
        match format {
            DocFormat::Jsonl { field } => region_docs(s, format) == jsonl_docs(s, field@, 0),
            DocFormat::Text { separator: Some(sep) } => region_docs(s, format) == if sep@.len()
                == 0 {
                seq![s]
            } else {
                docs(s, sep@)
            },
            DocFormat::Text { separator: None } => region_docs(s, format) == seq![s],
            DocFormat::Parquet { column } => true,
        },
{
}

/// The ranges that a file is cut into: each but the last is at least as long as was
/// asked for, and none but that of an empty file is empty.
pub proof fn lemma_ranges_long_enough(s: Seq<u8>, format: DocFormat, target: int, k: int)
    requires
        !(format is Parquet),
        0 < target,
        s.len() > 0,
        0 <= k < file_ranges(s, format, target).len(),
    ensures
        ({
            let r = file_ranges(s, format, target);
            &&& r[0].0 == 0
            &&& r[k].0 < r[k].1 <= s.len()
            &&& k < r.len() - 1 ==> r[k].1 - r[k].0 >= target && r[k].1 <= r[k + 1].0
            &&& r[r.len() - 1].1 == s.len() || format is Text
        }),
{
    match format {
        DocFormat::Jsonl { field } => {
            lemma_ranges_from(s, seq![0x0Au8], true, target, 0, k);
        },
        _ => {
            if format.sep().len() > 0 {
                lemma_ranges_from(s, format.sep(), false, target, 0, k);
            }
        },
    }
}

proof fn lemma_some_range(s: Seq<u8>, sep: Seq<u8>, keep: bool, target: int, start: int)
    requires
        sep.len() > 0,
        0 < target,
        0 <= start < s.len(),
    ensures
        ranges_from(s, sep, keep, target, start).len() > 0,
{
    lemma_scan_at(s, sep, start, start + target);
}

proof fn lemma_ranges_from(s: Seq<u8>, sep: Seq<u8>, keep: bool, target: int, start: int, k: int)
    requires
        sep.len() > 0,
        0 < target,
        0 <= start < s.len(),
        0 <= k < ranges_from(s, sep, keep, target, start).len(),
    ensures
        ({
            let r = ranges_from(s, sep, keep, target, start);
            &&& r[0].0 == start
            &&& r[k].0 < r[k].1 <= s.len()
            &&& k < r.len() - 1 ==> r[k].1 - r[k].0 >= target && r[k].1 <= r[k + 1].0
            &&& keep ==> r[r.len() - 1].1 == s.len()
        }),
    decreases s.len() - start,
{
    let r = ranges_from(s, sep, keep, target, start);
    if start + target < s.len() {
        lemma_scan_at(s, sep, start, start + target);
        match scan_at(s, sep, start, start + target) {
            None => {},
            Some(at) => {
                let next = at + sep.len();
                let rest = ranges_from(s, sep, keep, target, next);
                assert(r == seq![
                    (
                        start,
                        if keep {
                            next
                        } else {
                            at
                        },
                    ),
                ] + rest);
                if next < s.len() {
                    lemma_some_range(s, sep, keep, target, next);
                    lemma_ranges_from(s, sep, keep, target, next, if k > 0 { k - 1 } else { 0 });
                    assert(r[r.len() - 1] == rest[rest.len() - 1]);
                    assert(r[1] == rest[0]);
                    if k > 0 {
                        assert(r[k] == rest[k - 1]);
                        if k < r.len() - 1 {
                            assert(r[k + 1] == rest[k]);
                        }
                    }
                } else {
                    assert(rest =~= Seq::<(int, int)>::empty());
                }
            },
        }
    }
}

// ---------------------------------------------------------------------------
// File names
// ---------------------------------------------------------------------------

proof fn lemma_ascii_chars(chars: Seq<char>, bytes: Seq<u8>)
    requires
        chars.len() == bytes.len(),
        forall|i: int| 0 <= i < bytes.len() ==> (#[trigger] bytes[i]) < 0x80 && chars[i]
            == bytes[i] as char,
    ensures
        encode_utf8(chars) == bytes,
    decreases bytes.len(),
{
    if bytes.len() == 0 {
        assert(encode_utf8(chars) =~= bytes);
    } else {
        let b = bytes[0];
        lemma_ascii_text(b);
        assert(chars =~= seq![chars[0]] + chars.drop_first());
        crate::text::lemma_encode_concat(seq![chars[0]], chars.drop_first());
        assert forall|i: int| 0 <= i < bytes.drop_first().len() implies (
        #[trigger] bytes.drop_first()[i]) < 0x80 && chars.drop_first()[i]
            == bytes.drop_first()[i] as char by {
            assert(bytes[i + 1] < 0x80);
        }
        lemma_ascii_chars(chars.drop_first(), bytes.drop_first());
        assert(seq![b] + bytes.drop_first() =~= bytes);
    }
}

proof fn lemma_suffix_text()
    ensures
        dot_zst() == encode_utf8(".zst"@),
        dot_zstd() == encode_utf8(".zstd"@),
        dot_gz() == encode_utf8(".gz"@),
        dot_jsonl() == encode_utf8(".jsonl"@),
        dot_parquet() == encode_utf8(".parquet"@),
{
    reveal_strlit(".zst");
    reveal_strlit(".zstd");
    reveal_strlit(".gz");
    reveal_strlit(".jsonl");
    reveal_strlit(".parquet");
    lemma_ascii_chars(".zst"@, dot_zst());
    lemma_ascii_chars(".zstd"@, dot_zstd());
    lemma_ascii_chars(".gz"@, dot_gz());
    lemma_ascii_chars(".jsonl"@, dot_jsonl());
    lemma_ascii_chars(".parquet"@, dot_parquet());
}

/// Whether a file name ends in a text.
pub open spec fn named(name: Seq<u8>, end: Seq<char>) -> bool {
    let e = encode_utf8(end);
    e.len() <= name.len() && name.skip(name.len() - e.len()) == e
}

proof fn lemma_named(name: Seq<u8>, end: Seq<char>)
    ensures
        ends_with(name, encode_utf8(end)) == named(name, end),
{
    let e = encode_utf8(end);
    if e.len() <= name.len() {
        assert(name.skip(name.len() - e.len()) =~= name.subrange(
            name.len() - e.len(),
            name.len() - e.len() + e.len(),
        ));
    }
}

/// What the end of a file name says of its compression: `.zst` and `.zstd` mean
/// Zstandard, `.gz` means gzip, and what is left is the name without them; any other
/// name is that of a file without compression.
pub proof fn lemma_compressed_name(name: Seq<u8>)
    ensures
        named(name, ".zst"@) ==> compression_of(name) == (
            name.take(name.len() - 4),
            Compression::Zstd,
        ),
        named(name, ".zstd"@) ==> compression_of(name) == (
            name.take(name.len() - 5),
            Compression::Zstd,
        ),
        named(name, ".gz"@) ==> compression_of(name) == (
            name.take(name.len() - 3),
            Compression::Gzip,
        ),
        !named(name, ".zst"@) && !named(name, ".zstd"@) && !named(name, ".gz"@)
            ==> compression_of(name) == (name, Compression::Uncompressed),
{
    lemma_suffix_text();
    lemma_named(name, ".zst"@);
    lemma_named(name, ".zstd"@);
    lemma_named(name, ".gz"@);
    if ends_with(name, dot_zst()) {
        lemma_last_byte(name, dot_zst());
    }
    if ends_with(name, dot_zstd()) {
        lemma_last_byte(name, dot_zstd());
    }
    if ends_with(name, dot_gz()) {
        lemma_last_byte(name, dot_gz());
    }
}

/// What the end of a file name, without that of its compression, says of its content:
/// `.jsonl` means JSON lines, `.parquet` a Parquet file, and any other plain text.
pub proof fn lemma_content_name(name: Seq<u8>)
    ensures
        named(name, ".jsonl"@) ==> content_of(name) == ContentFormat::Jsonl,
        named(name, ".parquet"@) ==> content_of(name) == ContentFormat::Parquet,
        !named(name, ".jsonl"@) && !named(name, ".parquet"@) ==> content_of(name)
            == ContentFormat::PlainText,
{
    lemma_suffix_text();
    lemma_named(name, ".jsonl"@);
    lemma_named(name, ".parquet"@);
    if ends_with(name, dot_jsonl()) {
        lemma_last_byte(name, dot_jsonl());
    }
    if ends_with(name, dot_parquet()) {
        lemma_last_byte(name, dot_parquet());
    }
}

proof fn lemma_last_byte(s: Seq<u8>, end: Seq<u8>)
    requires
        ends_with(s, end),
        end.len() > 0,
    ensures
        s.len() > 0,
        s.last() == end.last(),
{
    let at = s.len() - end.len();
    assert(s.subrange(at, at + end.len())[end.len() - 1] == s[s.len() - 1]);
}

// ---------------------------------------------------------------------------
// Counts
// ---------------------------------------------------------------------------

/// How often a byte string occurs in a list is how many places hold it.
pub proof fn lemma_occurrences_are_places(ps: Seq<Seq<u8>>, p: Seq<u8>)
    ensures
        occurrences(ps, p) == ps.to_multiset().count(p),
        occurrences(ps, p) > 0 <==> ps.contains(p),
    decreases ps.len(),
{
    broadcast use vstd::seq_lib::group_to_multiset_ensures;

    if ps.len() > 0 {
        let init = ps.drop_last();
        lemma_occurrences_are_places(init, p);
        assert(ps =~= init.push(ps.last()));
        assert(ps.to_multiset() =~= init.to_multiset().insert(ps.last()));
        if init.contains(p) {
            let i = choose|i: int| 0 <= i < init.len() && init[i] == p;
            assert(ps[i] == p);
        }
        if ps.last() == p {
            assert(ps[ps.len() - 1] == p);
        }
        if ps.contains(p) && ps.last() != p {
            let i = choose|i: int| 0 <= i < ps.len() && ps[i] == p;
            assert(init[i] == p);
        }
    } else {
        assert(ps.to_multiset().count(p) == 0);
    }
}

/// The counts of a list of pretokens, counted from nothing: each pretoken of the list
/// has the number of places that hold it, and nothing else has a count.
pub proof fn lemma_counts_of_list(counts: Map<Seq<u8>, usize>, ps: Seq<Seq<u8>>, p: Seq<u8>)
    requires
        adds_list(Map::empty(), counts, ps),
    ensures
        counts.contains_key(p) <==> ps.contains(p),
        counts.contains_key(p) ==> counts[p] == ps.to_multiset().count(p),
{
    lemma_occurrences_are_places(ps, p);
    assert(counted(counts, p) == counted(Map::<Seq<u8>, usize>::empty(), p) + occurrences(ps, p));
}

/// Counts of one list and then of another are those of the two lists, and the sums of
/// what each gives by itself, in either order.
pub proof fn lemma_counts_add_up(
    a: Map<Seq<u8>, usize>,
    b: Map<Seq<u8>, usize>,
    c: Map<Seq<u8>, usize>,
    xs: Seq<Seq<u8>>,
    ys: Seq<Seq<u8>>,
    p: Seq<u8>,
)
    requires
        adds_list(Map::empty(), a, xs),
        adds_list(Map::empty(), b, ys),
        sums(a, b, c),
    ensures
        c.contains_key(p) <==> (xs + ys).contains(p),
        c.contains_key(p) ==> c[p] == (xs + ys).to_multiset().count(p),
        c.contains_key(p) ==> c[p] == (ys + xs).to_multiset().count(p),
{
    lemma_counts_of_list(a, xs, p);
    lemma_counts_of_list(b, ys, p);
    lemma_occurrences_are_places(xs, p);
    lemma_occurrences_are_places(ys, p);
    lemma_occurrences_are_places(xs + ys, p);
    lemma_occurrences_are_places(ys + xs, p);
    lemma_occurrences_concat(xs, ys, p);
    lemma_occurrences_concat(ys, xs, p);
    assert(counted(c, p) == counted(a, p) + counted(b, p));
}

/// The counts of rows: a pretoken has one where the text of some row has it, and it is
/// what the rows add.
pub proof fn lemma_counts_of_rows(counts: Map<Seq<u8>, usize>, rows: Seq<Row>, p: Seq<u8>)
    requires
        counts_rows(counts, rows),
    ensures
        counts.contains_key(p) <==> exists|i: int|
            0 <= i < rows.len() && (#[trigger] rows[i]).0 is Some && pretokens(
                rows[i].0->0,
            ).contains(p),
        counts.contains_key(p) ==> counts[p] == rows_add(rows, p),
{
    assert(counted(counts, p) == rows_add(rows, p));
    lemma_rows_with(rows, p);
}

proof fn lemma_rows_with(rows: Seq<Row>, p: Seq<u8>)
    ensures
        rows_have(rows, p) <==> exists|i: int|
            0 <= i < rows.len() && (#[trigger] rows[i]).0 is Some && pretokens(
                rows[i].0->0,
            ).contains(p),
    decreases rows.len(),
{
    if rows.len() > 0 {
        let init = rows.drop_last();
        lemma_rows_with(init, p);
        let n = rows.len() - 1;
        assert(rows[n] == rows.last());
        assert forall|i: int| 0 <= i < n implies init[i] == #[trigger] rows[i] by {}
        if let Some(text) = rows.last().0 {
            lemma_occurrences_are_places(pretokens(text), p);
        }
        if rows_have(init, p) {
            let i = choose|i: int|
                0 <= i < init.len() && (#[trigger] init[i]).0 is Some && pretokens(
                    init[i].0->0,
                ).contains(p);
            assert(rows[i] == init[i]);
        }
    }
}

/// The pretokens of documents are those of each, one after the other.
pub proof fn lemma_pretokens_of_documents(list: Seq<Seq<u8>>)
    ensures
        pretokens_of(list) == list.map_values(|d: Seq<u8>| pretokens(d)).flatten(),
    decreases list.len(),
{
    let f = |d: Seq<u8>| pretokens(d);
    let parts = list.map_values(f);
    if list.len() > 0 {
        let init = list.drop_last();
        lemma_pretokens_of_documents(init);
        let last = pretokens(list.last());
        assert(parts =~= init.map_values(f) + seq![last]);
        lemma_flatten_concat(init.map_values(f), seq![last]);
        lemma_flatten_one(last);
    } else {
        assert(parts =~= Seq::<Seq<Seq<u8>>>::empty());
        assert(parts.flatten() =~= Seq::<Seq<u8>>::empty());
    }
}

/// What rows add to the count of a pretoken: each row with a text as often as the text
/// has the pretoken, times its frequency where it has one; a row without a text
/// nothing. The order of the rows does not matter.
pub proof fn lemma_row_counts(a: Seq<Row>, b: Seq<Row>, text: Seq<u8>, f: i64, p: Seq<u8>)
    requires
        0 <= f <= usize::MAX,
    ensures
        rows_add(seq![(None, Some(f))], p) == 0,
        rows_add(seq![(Some(text), None)], p) == pretokens(text).to_multiset().count(p),
        rows_add(seq![(Some(text), Some(f))], p) == f * pretokens(text).to_multiset().count(p),
        rows_add(a + b, p) == rows_add(a, p) + rows_add(b, p),
        rows_add(a + b, p) == rows_add(b + a, p),
        rows_have(seq![(Some(text), Some(f))], p) <==> pretokens(text).contains(p),
        !rows_have(seq![(None, Some(f))], p),
        rows_have(a + b, p) <==> rows_have(a, p) || rows_have(b, p),
{
    lemma_occurrences_are_places(pretokens(text), p);
    lemma_one_row((None, Some(f)), p);
    lemma_one_row((Some(text), None), p);
    lemma_one_row((Some(text), Some(f)), p);
    lemma_rows_joined(a, b, p);
    lemma_rows_joined(b, a, p);
    let k = occurrences(pretokens(text), p);
    assert(weight(Some(f)) == f);
    assert(1 * k == k) by (nonlinear_arith);
}

proof fn lemma_one_row(row: Row, p: Seq<u8>)
    ensures
        rows_add(seq![row], p) == row_adds(row, p),
        rows_have(seq![row], p) == row_has(row, p),
{
    assert(seq![row].drop_last() =~= Seq::<Row>::empty());
    assert(rows_add(Seq::<Row>::empty(), p) == 0);
    assert(!rows_have(Seq::<Row>::empty(), p));
}

proof fn lemma_rows_joined(a: Seq<Row>, b: Seq<Row>, p: Seq<u8>)
    ensures
        rows_add(a + b, p) == rows_add(a, p) + rows_add(b, p),
        rows_have(a + b, p) <==> rows_have(a, p) || rows_have(b, p),
    decreases b.len(),
{
    if b.len() == 0 {
        assert(a + b =~= a);
    } else {
        assert((a + b).drop_last() =~= a + b.drop_last());
        assert((a + b).last() == b.last());
        lemma_rows_joined(a, b.drop_last(), p);
    }
}

/// The parts of a table take all of its rows, one part behind the other, none more than
/// its share rounded up.
pub proof fn lemma_row_parts(len: int, n: int, i: int)
    requires
        0 <= len,
        0 < n,
        0 <= i < n,
    ensures
        part_start(len, n, 0) == 0,
        part_start(len, n, n) == len,
        part_start(len, n, i) <= part_start(len, n, i + 1),
        n * (part_start(len, n, i + 1) - part_start(len, n, i)) < len + n,
{
    let q = part_rows(len, n);
    assert(n * q <= len + n - 1 < n * q + n) by (nonlinear_arith)
        requires
            q == (len + n - 1) / n,
            0 < n,
    ;
    assert(0 <= q) by (nonlinear_arith)
        requires
            n * q + n > len + n - 1,
            0 <= len,
            0 < n,
    ;
    assert(0 * q == 0) by (nonlinear_arith);
    assert((i + 1) * q == i * q + q) by (nonlinear_arith);
    assert(0 <= i * q) by (nonlinear_arith)
        requires
            0 <= i,
            0 <= q,
    ;
    assert(n * q >= len);
    let d = part_start(len, n, i + 1) - part_start(len, n, i);
    assert(0 <= d <= q);
    assert(n * d <= n * q) by (nonlinear_arith)
        requires
            d <= q,
            0 < n,
    ;
}

} // verus!

//! Vocabulary tables from lists of byte strings with their ids.

use vstd::prelude::*;

use crate::bpe::model::extended;
use crate::byte_map::ByteMap;
use crate::seqs::{byte_seqs, copy_bytes};
use crate::token::TokenId;

verus! {

/// Byte strings with their ids.
pub type Entries = Seq<(Seq<u8>, u32)>;

/// How many places the ids of a list need; one where there are none.
pub open spec fn places(entries: Entries) -> int
    decreases entries.len(),
{
    if entries.len() == 0 {
        1
    } else if places(entries.drop_last()) > entries.last().1 {
        places(entries.drop_last())
    } else {
        entries.last().1 + 1
    }
}

/// The byte string at each of `n` places, empty where no id is the place; of
/// two with one id, the later.
pub open spec fn placed(entries: Entries, n: int) -> Seq<Seq<u8>>
    decreases entries.len(),
{
    if entries.len() == 0 {
        Seq::new(n as nat, |i: int| Seq::empty())
    } else {
        placed(entries.drop_last(), n).update(entries.last().1 as int, entries.last().0)
    }
}

/// The id of each byte string; of one that occurs twice, the later.
pub open spec fn ids_of(entries: Entries) -> Map<Seq<u8>, TokenId>
    decreases entries.len(),
{
    if entries.len() == 0 {
        Map::empty()
    } else {
        ids_of(entries.drop_last()).insert(entries.last().0, TokenId(entries.last().1))
    }
}

/// A vocabulary with the contents of added tokens at ids that have none.
pub open spec fn with_added(vocab: Seq<Seq<u8>>, added: Entries) -> Seq<Seq<u8>>
    decreases added.len(),
{
    if added.len() == 0 {
        vocab
    } else {
        let (content, id) = added.last();
        let wide = extended(with_added(vocab, added.drop_last()), id + 1);
        if wide[id as int].len() == 0 {
            wide.update(id as int, content)
        } else {
            wide
        }
    }
}

/// Whether no two entries of a list have one id.
pub open spec fn ids_distinct(entries: Entries) -> bool {
    forall|i: int, j: int|
        0 <= i < j < entries.len() ==> (#[trigger] entries[i]).1 != (#[trigger] entries[j]).1
}

pub proof fn lemma_places(entries: Entries, i: int)
    requires
        0 <= i < entries.len(),
    ensures
        entries[i].1 < places(entries),
    decreases entries.len(),
{
    if i < entries.len() - 1 {
        assert(entries.drop_last()[i] == entries[i]);
        lemma_places(entries.drop_last(), i);
    }
}

pub proof fn lemma_placed_len(entries: Entries, n: int)
    requires
        0 <= n,
        forall|k: int| 0 <= k < entries.len() ==> (#[trigger] entries[k]).1 < n,
    ensures
        placed(entries, n).len() == n,
    decreases entries.len(),
{
    if entries.len() > 0 {
        let init = entries.drop_last();
        assert forall|k: int| 0 <= k < init.len() implies (#[trigger] init[k]).1 < n by {
            assert(init[k] == entries[k]);
        }
        lemma_placed_len(init, n);
        assert(entries[entries.len() - 1] == entries.last());
    }
}

/// Where no id occurs twice, each byte string stands at its id.
pub proof fn lemma_placed_at_id(entries: Entries, n: int, i: int)
    requires
        ids_distinct(entries),
        0 <= i < entries.len(),
        forall|k: int| 0 <= k < entries.len() ==> (#[trigger] entries[k]).1 < n,
    ensures
        placed(entries, n)[entries[i].1 as int] == entries[i].0,
    decreases entries.len(),
{
    let init = entries.drop_last();
    assert forall|k: int| 0 <= k < init.len() implies (#[trigger] init[k]).1 < n by {
        assert(init[k] == entries[k]);
    }
    assert(entries[i].1 < n);
    lemma_placed_len(init, n);
    assert(entries[entries.len() - 1] == entries.last());
    if i < init.len() {
        assert(init[i] == entries[i]);
        assert(ids_distinct(init)) by {
            assert forall|a: int, b: int| 0 <= a < b < init.len() implies (#[trigger] init[a]).1
                != (#[trigger] init[b]).1 by {
                assert(init[a] == entries[a] && init[b] == entries[b]);
            }
        }
        lemma_placed_at_id(init, n, i);
    }
}

/// Adding tokens changes no place that has content.
pub proof fn lemma_with_added_keeps(vocab: Seq<Seq<u8>>, added: Entries, id: int)
    requires
        0 <= id < vocab.len(),
        vocab[id].len() > 0,
    ensures
        id < with_added(vocab, added).len(),
        with_added(vocab, added)[id] == vocab[id],
    decreases added.len(),
{
    if added.len() > 0 {
        lemma_with_added_keeps(vocab, added.drop_last(), id);
    }
}

/// The id that a list gives a byte string is one that it has there.
pub proof fn lemma_ids_of(entries: Entries, p: Seq<u8>)
    ensures
        ids_of(entries).contains_key(p) ==> exists|i: int|
            0 <= i < entries.len() && #[trigger] entries[i] == (p, ids_of(entries)[p].0),
    decreases entries.len(),
{
    if entries.len() > 0 {
        let init = entries.drop_last();
        lemma_ids_of(init, p);
        if ids_of(entries).contains_key(p) {
            if entries.last().0 == p {
                assert(entries[entries.len() - 1] == (p, ids_of(entries)[p].0));
            } else {
                let i = choose|i: int|
                    0 <= i < init.len() && #[trigger] init[i] == (p, ids_of(init)[p].0);
                assert(entries[i] == init[i]);
            }
        }
    }
}

/// The contents of a list of entries.
pub open spec fn entry_views(v: Seq<(Vec<u8>, u32)>) -> Entries {
    v.map_values(|e: (Vec<u8>, u32)| (e.0@, e.1))
}

/// The tables of a list: the byte string at each id, and the id of each byte
/// string.
pub fn place_entries(entries: &[(Vec<u8>, u32)]) -> (r: (Vec<Vec<u8>>, ByteMap<TokenId>))
    requires
        forall|i: int| 0 <= i < entries@.len() ==> (#[trigger] entries@[i]).1 < u32::MAX,
    ensures
        byte_seqs(r.0@) == placed(entry_views(entries@), places(entry_views(entries@))),
        r.0@.len() <= u32::MAX,
        r.1.wf(),
        r.1@ == ids_of(entry_views(entries@)),
{
    let ghost views = entry_views(entries@);
    let mut n: u32 = 1;
    assert(views.take(0) =~= Seq::<(Seq<u8>, u32)>::empty());
    for i in 0..entries.len()
        invariant
            views == entry_views(entries@),
            forall|k: int| 0 <= k < entries@.len() ==> (#[trigger] entries@[k]).1 < u32::MAX,
            n == places(views.take(i as int)),
    {
        assert(views.take(i as int + 1).drop_last() =~= views.take(i as int));
        assert(views.take(i as int + 1).last() == views[i as int]);
        if entries[i].1 >= n {
            n = entries[i].1 + 1;
        }
    }
    assert(views.take(views.len() as int) =~= views);
    let mut vocab: Vec<Vec<u8>> = Vec::with_capacity(n as usize);
    for i in 0..n
        invariant
            vocab@.len() == i,
            forall|k: int| 0 <= k < i ==> (#[trigger] vocab@[k])@ == Seq::<u8>::empty(),
    {
        vocab.push(Vec::new());
    }
    let mut inv: ByteMap<TokenId> = ByteMap::new();
    assert(byte_seqs(vocab@) =~= placed(views.take(0), n as int));
    assert(inv@ =~= ids_of(views.take(0)));
    for i in 0..entries.len()
        invariant
            views == entry_views(entries@),
            n == places(views),
            vocab@.len() == n,
            byte_seqs(vocab@) == placed(views.take(i as int), n as int),
            inv.wf(),
            inv@ == ids_of(views.take(i as int)),
    {
        proof {
            lemma_places(views, i as int);
            assert(views.take(i as int + 1).drop_last() =~= views.take(i as int));
            assert(views.take(i as int + 1).last() == views[i as int]);
        }
        let id: u32 = entries[i].1;
        let ghost before = byte_seqs(vocab@);
        vocab.set(id as usize, copy_bytes(entries[i].0.as_slice()));
        assert(byte_seqs(vocab@) =~= before.update(id as int, views[i as int].0));
        inv.insert(entries[i].0.as_slice(), TokenId(id));
    }
    assert(views.take(views.len() as int) =~= views);
    (vocab, inv)
}

/// Added tokens may live outside the model's vocabulary (e.g. Qwen2's
/// `<|endoftext|>`, Phi-3's placeholders); extend the vocabulary so that their
/// ids decode to the literal content.
pub fn extend_vocab(vocab: &mut Vec<Vec<u8>>, added: &[(Vec<u8>, u32)])
    requires
        old(vocab)@.len() <= u32::MAX,
        forall|i: int| 0 <= i < added@.len() ==> (#[trigger] added@[i]).1 < u32::MAX,
    ensures
        byte_seqs(final(vocab)@) == with_added(byte_seqs(old(vocab)@), entry_views(added@)),
        final(vocab)@.len() <= u32::MAX,
{
    let ghost views = entry_views(added@);
    let ghost start = byte_seqs(vocab@);
    assert(views.take(0) =~= Seq::<(Seq<u8>, u32)>::empty());
    for i in 0..added.len()
        invariant
            views == entry_views(added@),
            forall|k: int| 0 <= k < added@.len() ==> (#[trigger] added@[k]).1 < u32::MAX,
            byte_seqs(vocab@) == with_added(start, views.take(i as int)),
            vocab@.len() <= u32::MAX,
    {
        proof {
            assert(views.take(i as int + 1).drop_last() =~= views.take(i as int));
            assert(views.take(i as int + 1).last() == views[i as int]);
        }
        let id: usize = added[i].1 as usize;
        let ghost before = byte_seqs(vocab@);
        while vocab.len() <= id
            invariant
                id < u32::MAX,
                vocab@.len() <= u32::MAX,
                before.len() <= vocab@.len(),
                vocab@.len() <= id + 1 || vocab@.len() == before.len(),
                byte_seqs(vocab@) == extended(before, vocab@.len() as int),
            decreases id + 1 - vocab@.len(),
        {
            let ghost prior = byte_seqs(vocab@);
            vocab.push(Vec::new());
            assert(byte_seqs(vocab@) =~= prior.push(Seq::<u8>::empty()));
            assert(byte_seqs(vocab@) =~= extended(before, vocab@.len() as int));
        }
        let ghost wide = byte_seqs(vocab@);
        assert(wide =~= extended(before, id as int + 1));
        assert(wide[id as int] == vocab@[id as int]@);
        if vocab[id].len() == 0 {
            vocab.set(id, copy_bytes(added[i].0.as_slice()));
            assert(byte_seqs(vocab@) =~= wide.update(id as int, views[i as int].0));
        }
    }
    assert(views.take(views.len() as int) =~= views);
}

} // verus!

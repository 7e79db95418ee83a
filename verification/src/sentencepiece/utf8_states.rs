//! Valid UTF-8 as the runs of a state machine over bytes.

use vstd::prelude::*;
use vstd::utf8::{
    codepoint_width_1, codepoint_width_2, codepoint_width_3, codepoint_width_4,
    is_continuation_byte, length_of_first_scalar, pop_first_scalar, valid_first_scalar, valid_utf8,
};

verus! {

/// The state behind byte `c` in state `q`, where a valid text can go on so. State 0
/// is between characters; 1, 2 and 3 have that many continuation bytes left; 4 to 7
/// stand behind the leading bytes E0, ED, F0 and F4, whose next byte is narrower.
pub open spec fn next_state(q: int, c: u8) -> Option<int> {
    if q == 0 {
        if c < 0x80 {
            Some(0)
        } else if 0xC2 <= c <= 0xDF {
            Some(1)
        } else if c == 0xE0 {
            Some(4)
        } else if c == 0xED {
            Some(5)
        } else if 0xE1 <= c <= 0xEF {
            Some(2)
        } else if c == 0xF0 {
            Some(6)
        } else if 0xF1 <= c <= 0xF3 {
            Some(3)
        } else if c == 0xF4 {
            Some(7)
        } else {
            None
        }
    } else if !is_continuation_byte(c) {
        None
    } else if 1 <= q <= 3 {
        Some(q - 1)
    } else if q == 4 && c >= 0xA0 {
        Some(1)
    } else if q == 5 && c < 0xA0 {
        Some(1)
    } else if q == 6 && c >= 0x90 {
        Some(2)
    } else if q == 7 && c < 0x90 {
        Some(2)
    } else {
        None
    }
}

/// The state behind a byte string in state `q`, where a valid text can go on so.
pub open spec fn run(q: int, s: Seq<u8>) -> Option<int>
    decreases s.len(),
{
    if s.len() == 0 {
        Some(q)
    } else {
        match next_state(q, s[0]) {
            Some(r) => run(r, s.skip(1)),
            None => None,
        }
    }
}

/// What makes a text in state `q` valid.
pub open spec fn completion(q: int) -> Seq<u8> {
    if q == 0 {
        Seq::empty()
    } else if q == 1 {
        seq![0x80u8]
    } else if q == 2 || q == 5 {
        seq![0x80u8, 0x80u8]
    } else if q == 4 {
        seq![0xA0u8, 0x80u8]
    } else if q == 6 {
        seq![0x90u8, 0x80u8, 0x80u8]
    } else {
        seq![0x80u8, 0x80u8, 0x80u8]
    }
}

/// There are eight states.
pub proof fn lemma_next_state(q: int, c: u8)
    requires
        0 <= q < 8,
    ensures
        next_state(q, c) matches Some(r) ==> 0 <= r < 8,
{
}

pub proof fn lemma_run_state(q: int, s: Seq<u8>)
    requires
        0 <= q < 8,
    ensures
        run(q, s) matches Some(r) ==> 0 <= r < 8,
    decreases s.len(),
{
    if s.len() > 0 {
        if let Some(r) = next_state(q, s[0]) {
            lemma_run_state(r, s.skip(1));
        }
    }
}

/// A run goes on from where its beginning ends.
pub proof fn lemma_run_concat(q: int, a: Seq<u8>, b: Seq<u8>)
    ensures
        run(q, a + b) == match run(q, a) {
            Some(r) => run(r, b),
            None => None,
        },
    decreases a.len(),
{
    let s = a + b;
    if a.len() == 0 {
        assert(s =~= b);
    } else {
        assert(s[0] == a[0]);
        assert(s.skip(1) =~= a.skip(1) + b);
        if let Some(r) = next_state(q, a[0]) {
            lemma_run_concat(r, a.skip(1), b);
        }
    }
}

pub proof fn lemma_run_one(q: int, c: u8)
    ensures
        run(q, seq![c]) == next_state(q, c),
{
    assert(seq![c].skip(1) =~= Seq::<u8>::empty());
    if let Some(r) = next_state(q, c) {
        assert(run(r, seq![c].skip(1)) == Some(r));
    }
}

/// Every state can be brought to the end of a character.
pub proof fn lemma_completion(q: int)
    requires
        0 <= q < 8,
    ensures
        run(q, completion(q)) == Some(0int),
{
    let t = completion(q);
    reveal_with_fuel(run, 4);
    if t.len() >= 2 {
        assert(t.skip(1).skip(1) =~= t.skip(2));
        assert(t.skip(1)[0] == t[1]);
    }
    if t.len() == 3 {
        assert(t.skip(2).skip(1) =~= t.skip(3));
        assert(t.skip(2)[0] == t[2]);
    }
}

/// Which bytes encode a character.
proof fn lemma_code_ranges(a: u8, b: u8, c: u8, d: u8)
    ensures
        a < 0x80 ==> codepoint_width_1(a) < 0x80,
        0xC0 <= a <= 0xDF && is_continuation_byte(b) ==> codepoint_width_2(a, b) < 0x800 && (
        codepoint_width_2(a, b) >= 0x80 <==> a >= 0xC2),
        0xE0 <= a <= 0xEF && is_continuation_byte(b) && is_continuation_byte(c) ==> (
        codepoint_width_3(a, b, c) >= 0x800 && !(0xD800 <= codepoint_width_3(a, b, c) <= 0xDFFF)
            <==> !(a == 0xE0 && b < 0xA0) && !(a == 0xED && b >= 0xA0)),
        0xF0 <= a <= 0xF7 && is_continuation_byte(b) && is_continuation_byte(c)
            && is_continuation_byte(d) ==> (0x10000 <= codepoint_width_4(a, b, c, d) <= 0x10FFFF
            <==> a <= 0xF4 && !(a == 0xF0 && b < 0x90) && !(a == 0xF4 && b >= 0x90)),
{
    assert(a < 0x80 ==> ((a & 0x7F) as u32) < 0x80) by (bit_vector);
    assert(0xC0 <= a <= 0xDF && 0x80 <= b <= 0xBF ==> {
        let x = ((a & 0x1F) as u32) << 6u32 | ((b & 0x3F) as u32);
        x < 0x800 && (x >= 0x80 <==> a >= 0xC2)
    }) by (bit_vector);
    assert(0xE0 <= a <= 0xEF && 0x80 <= b <= 0xBF && 0x80 <= c <= 0xBF ==> {
        let x = ((a & 0x0F) as u32) << 12u32 | (((b & 0x3F) as u32) << 6u32) | ((c & 0x3F) as u32);
        (x >= 0x800 && !(0xD800 <= x && x <= 0xDFFF) <==> !(a == 0xE0 && b < 0xA0) && !(a == 0xED
            && b >= 0xA0))
    }) by (bit_vector);
    assert(0xF0 <= a <= 0xF7 && 0x80 <= b <= 0xBF && 0x80 <= c <= 0xBF && 0x80 <= d <= 0xBF ==> {
        let x = ((a & 0x07) as u32) << 18u32 | (((b & 0x3F) as u32) << 12u32) | (((c & 0x3F)
            as u32) << 6u32) | ((d & 0x3F) as u32);
        (0x10000 <= x && x <= 0x10FFFF <==> a <= 0xF4 && !(a == 0xF0 && b < 0x90) && !(a == 0xF4
            && b >= 0x90))
    }) by (bit_vector);
}

/// The valid texts are those that run from between characters to there.
pub proof fn lemma_valid_runs(s: Seq<u8>)
    ensures
        valid_utf8(s) <==> run(0, s) == Some(0int),
    decreases s.len(),
{
    if s.len() > 0 {
        let a = s[0];
        let b = if s.len() > 1 {
            s[1]
        } else {
            0
        };
        let c = if s.len() > 2 {
            s[2]
        } else {
            0
        };
        let d = if s.len() > 3 {
            s[3]
        } else {
            0
        };
        lemma_code_ranges(a, b, c, d);
        reveal_with_fuel(run, 5);
        if s.len() > 1 {
            assert(s.skip(1)[0] == b);
            assert(s.skip(1).skip(1) =~= s.skip(2));
        }
        if s.len() > 2 {
            assert(s.skip(2)[0] == c);
            assert(s.skip(2).skip(1) =~= s.skip(3));
        }
        if s.len() > 3 {
            assert(s.skip(3)[0] == d);
            assert(s.skip(3).skip(1) =~= s.skip(4));
        }
        if valid_first_scalar(s) {
            let n = length_of_first_scalar(s);
            assert(pop_first_scalar(s) =~= s.skip(n));
            lemma_valid_runs(s.skip(n));
            assert(run(0, s) == run(0, s.skip(n)));
        } else {
            assert(run(0, s) != Some(0int));
        }
    }
}

/// What follows a byte in a valid text.
pub proof fn lemma_completed_valid(path: Seq<u8>, q: int)
    requires
        0 <= q < 8,
        run(0, path) == Some(q),
    ensures
        valid_utf8(path + completion(q)),
{
    lemma_run_concat(0, path, completion(q));
    lemma_completion(q);
    lemma_valid_runs(path + completion(q));
}

} // verus!

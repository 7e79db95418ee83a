//! Token identifiers.

use vstd::prelude::*;

verus! {

/// A token id: an index into a tokenizer's vocabulary.
#[derive(Debug, Clone, Copy, PartialEq, Eq, PartialOrd, Ord, Hash, Structural)]
pub struct TokenId(pub u32);

impl TokenId {
    /// The id as an index into a vocabulary.
    pub fn index(self) -> (i: usize)
        ensures
            i == self.0,
    {
        self.0 as usize
    }
}

/// Integers as token ids, or the first that does not fit one.
pub fn cast_token_ids(values: &[i128]) -> (r: Result<Vec<TokenId>, i128>)
    ensures
        match r {
            Ok(ids) => {
                &&& ids@.len() == values@.len()
                &&& forall|i: int|
                    0 <= i < values@.len() ==> (#[trigger] ids@[i]).0 == values@[i]
            },
            Err(bad) => exists|i: int|
                {
                    &&& 0 <= i < values@.len()
                    &&& bad == #[trigger] values@[i]
                    &&& !(0 <= bad <= u32::MAX)
                    &&& forall|k: int| 0 <= k < i ==> 0 <= #[trigger] values@[k] <= u32::MAX
                },
        },
{
    let mut ids: Vec<TokenId> = Vec::with_capacity(values.len());
    for i in 0..values.len()
        invariant
            ids@.len() == i,
            forall|k: int| 0 <= k < i ==> (#[trigger] ids@[k]).0 == values@[k],
            forall|k: int| 0 <= k < i ==> 0 <= #[trigger] values@[k] <= u32::MAX,
    {
        let value: i128 = values[i];
        if value < 0 || value > u32::MAX as i128 {
            return Err(value);
        }
        ids.push(TokenId(value as u32));
    }
    Ok(ids)
}

} // verus!

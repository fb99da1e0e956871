//! The digit path of a cell, from its base cell down to its resolution.

use crate::cell::{
    base_of, cell_of_path, digit_at, digits_of, lemma_cell_of_path, lemma_fields, res_of, valid_cell,
    Cell, CellStack, Index,
};
use vstd::prelude::*;

verus! {

/// The digits of a cell, coarsest first, handed out one at a time.
pub struct Digits {
    raw: u64,
    next_res: u8,
    res: u8,
}

impl View for Digits {
    type V = Seq<u8>;

    closed spec fn view(&self) -> Seq<u8> {
        Seq::new(
            (self.res + 1 - self.next_res) as nat,
            |i: int| digit_at(self.raw, (self.next_res + i) as u64) as u8,
        )
    }
}

impl Digits {
    /// Whether the digits left are those of a valid cell.
    pub closed spec fn wf(&self) -> bool {
        &&& valid_cell(self.raw)
        &&& self.res as u64 == res_of(self.raw)
        &&& 1 <= self.next_res <= self.res + 1
    }

    /// All the digits of `cell`.
    pub fn new(cell: Cell) -> (r: Self)
        ensures
            r.wf(),
            r@ == digits_of(cell@),
    {
        proof {
            use_type_invariant(&cell);
        }
        let r = Digits { raw: cell.into_raw(), next_res: 1, res: cell.res() };
        assert(r@ =~= digits_of(cell@));
        r
    }

    /// The next digit, or `None` once all are out.
    pub fn next(&mut self) -> (r: Option<u8>)
        requires
            old(self).wf(),
        ensures
            final(self).wf(),
            old(self)@.len() == 0 ==> r is None && final(self)@ == old(self)@,
            old(self)@.len() > 0 ==> r == Some(old(self)@[0]) && final(self)@ == old(
                self,
            )@.drop_first(),
            r matches Some(d) ==> d < 8,
    {
        if self.next_res > self.res {
            None
        } else {
            proof {
                lemma_fields(self.raw);
            }
            let d = Index(self.raw).digit(self.next_res).unwrap();
            let ghost before = self@;
            self.next_res = self.next_res + 1;
            assert(self@ =~= before.drop_first());
            Some(d)
        }
    }
}

/// A cell stack positioned at the canonical form of `cell`, built by
/// stepping down from its base cell along its digits, which must all be
/// 0..=6.
pub fn stack_of(cell: Cell) -> (r: CellStack)
    requires
        forall|i: int| 0 <= i < digits_of(cell@).len() ==> #[trigger] digits_of(cell@)[i] < 7,
    ensures
        r.wf(),
        r@ == Some(cell_of_path(seq![base_of(cell@) as u8] + digits_of(cell@))),
{
    proof {
        use_type_invariant(&cell);
        lemma_fields(cell@);
    }
    let ghost all = digits_of(cell@);
    let mut stack = CellStack::new();
    stack.push(cell.base());
    let mut digits = Digits::new(cell);
    let ghost mut taken: nat = 0;
    proof {
        assert(seq![base_of(cell@) as u8].len() == 1);
    }
    loop
        invariant
            digits.wf(),
            stack.wf(),
            taken + digits@.len() == all.len(),
            all.len() <= 15,
            base_of(cell@) < 122,
            forall|i: int| 0 <= i < all.len() ==> #[trigger] all[i] < 7,
            digits@ == all.subrange(taken as int, all.len() as int),
            stack@ == Some(cell_of_path(seq![base_of(cell@) as u8] + all.subrange(0, taken as int))),
        ensures
            stack.wf(),
            stack@ == Some(cell_of_path(seq![base_of(cell@) as u8] + all)),
        decreases digits@.len(),
    {
        let ghost prefix = seq![base_of(cell@) as u8] + all.subrange(0, taken as int);
        proof {
            assert forall|i: int| 1 <= i < prefix.len() implies #[trigger] prefix[i] < 7 by {
                assert(prefix[i] == all[i - 1]);
            }
            lemma_cell_of_path(prefix);
        }
        match digits.next() {
            None => {
                assert(taken == all.len());
                assert(all.subrange(0, taken as int) =~= all);
                break;
            },
            Some(d) => {
                assert(d == all[taken as int]);
                stack.push(d);
                proof {
                    let next = seq![base_of(cell@) as u8] + all.subrange(0, (taken + 1) as int);
                    assert(next.drop_last() =~= prefix);
                    assert(next.last() == d);
                    taken = taken + 1;
                }
                assert(digits@ =~= all.subrange(taken as int, all.len() as int));
            },
        }
    }
    stack
}

} // verus!

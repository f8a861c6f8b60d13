//! Checks run on a parsed program before it is compiled.
use vstd::prelude::*;
use crate::ast::{Item, ItemV, Program, item_view, items_view, lemma_items_view};

verus! {

/// The warning given for each statement at the top level of a program.
pub open spec fn top_level_warning() -> Seq<char> {
    "Warning: Top-level statement found. It will be compiled as a hat-less block."@
}

/// One warning for each top-level statement, in order.
pub open spec fn warnings(items: Seq<ItemV>) -> Seq<Seq<char>>
    decreases items.len(),
{
    if items.len() == 0 {
        Seq::empty()
    } else {
        let w = warnings(items.drop_last());
        match items.last() {
            ItemV::Stmt(_) => w.push(top_level_warning()),
            _ => w,
        }
    }
}

/// The warnings for a program: one for each statement that stands at the top
/// level, where it becomes a block without a hat.
pub fn check_program(program: &Program) -> (r: Vec<String>)
    ensures
        r@.map_values(|s: String| s@) == warnings(program@.items),
{
    let mut out: Vec<String> = Vec::new();
    let mut i: usize = 0;
    proof {
        lemma_items_view(program.items@);
    }
    while i < program.items.len()
        invariant
            i <= program.items.len(),
            out@.map_values(|s: String| s@) == warnings(items_view(program.items@).subrange(0, i as int)),
            items_view(program.items@).len() == program.items@.len(),
            forall|k: int|
                0 <= k < program.items@.len() ==> #[trigger] items_view(program.items@)[k]
                    == item_view(program.items@[k]),
        decreases program.items.len() - i,
    {
        let ghost pre = items_view(program.items@).subrange(0, i + 1);
        assert(pre.drop_last() =~= items_view(program.items@).subrange(0, i as int));
        assert(pre.last() == item_view(program.items@[i as int]));
        match &program.items[i] {
            Item::Stmt(_) => {
                let w = String::from_str(
                    "Warning: Top-level statement found. It will be compiled as a hat-less block.",
                );
                proof {
                    assert(out@.push(w).map_values(|s: String| s@) =~= out@.map_values(
                        |s: String| s@,
                    ).push(w@));
                }
                out.push(w);
            },
            _ => {},
        }
        i += 1;
    }
    assert(items_view(program.items@).subrange(0, i as int) =~= items_view(program.items@));
    out
}

} // verus!

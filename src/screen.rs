use vstd::prelude::*;

use crate::display::{reduced, DisplayDescription, LineView};
use crate::program::{describe, Program};
use crate::util::{most_equal_divide, share};

verus! {

/// The layouts of all sources with no slack.
pub open spec fn base_layouts(ps: Seq<Program>, cx: nat) -> Seq<Seq<LineView>> {
    ps.map_values(|p: Program| describe(p.description(), p.tree(), cx, 0))
}

/// The number of rows of all the layouts together.
pub open spec fn total_rows(ls: Seq<Seq<LineView>>) -> nat
    decreases ls.len(),
{
    if ls.len() == 0 {
        0
    } else {
        total_rows(ls.drop_last()) + ls.last().len()
    }
}

/// The rows of each source on a screen of `cy` rows. When the sources need more rows than
/// there are, each is cut down to its share of the rows; when they need fewer, each is laid
/// out again with its share of the spare rows as slack; else they stay as they are.
pub open spec fn screen(ps: Seq<Program>, cx: nat, cy: nat) -> Seq<Seq<LineView>> {
    let base = base_layouts(ps, cx);
    let total = total_rows(base);
    let n = ps.len() as int;
    if total > cy {
        Seq::new(ps.len(), |idx: int| reduced(base[idx], share(cy as int, n, idx) as nat))
    } else if total < cy {
        Seq::new(
            ps.len(),
            |idx: int|
                describe(
                    ps[idx].description(),
                    ps[idx].tree(),
                    cx,
                    share(cy - total, n, idx) as nat,
                ),
        )
    } else {
        base
    }
}

/// The views of a sequence of descriptions.
pub open spec fn description_views(ds: Seq<DisplayDescription>) -> Seq<Seq<LineView>> {
    ds.map_values(|d: DisplayDescription| d.view())
}

/// Lays out every source so that together they fit a screen of `cx` columns and `cy` rows.
pub fn layout_screen(programs: &Vec<Program>, cx: usize, cy: usize) -> (r: Vec<DisplayDescription>)
    ensures
        description_views(r@) == screen(programs@, cx as nat, cy as nat),
        forall|i: int| 0 <= i < r@.len() ==> (#[trigger] r@[i]).width() == cx,
{
    let n = programs.len();
    let ghost base = base_layouts(programs@, cx as nat);
    let mut descs: Vec<DisplayDescription> = Vec::new();
    let mut total: usize = 0;
    let mut over = false;
    let mut i: usize = 0;
    while i < n
        invariant
            n == programs@.len(),
            0 <= i <= n,
            base == base_layouts(programs@, cx as nat),
            description_views(descs@) == base.take(i as int),
            forall|k: int| 0 <= k < descs@.len() ==> (#[trigger] descs@[k]).width() == cx,
            !over ==> total == total_rows(base.take(i as int)) && total <= cy,
            over ==> total_rows(base.take(i as int)) > cy,
        decreases n - i,
    {
        let d = programs[i].calc_display_description(cx, 0);
        let len = d.len();
        proof {
            assert(base.take(i + 1).drop_last() =~= base.take(i as int));
            lemma_total_rows_grows(base.take(i + 1));
        }
        if !over {
            if len > cy - total {
                over = true;
            } else {
                total = total + len;
            }
        }
        descs.push(d);
        proof {
            assert(description_views(descs@) =~= base.take(i + 1));
        }
        i = i + 1;
    }
    proof {
        assert(base.take(n as int) =~= base);
    }
    if n == 0 {
        proof {
            assert(description_views(descs@) =~= screen(programs@, cx as nat, cy as nat));
        }
        return descs;
    }
    if over {
        let mut k: usize = 0;
        let ghost first = descs@;
        while k < n
            invariant
                n == programs@.len(),
                n >= 1,
                0 <= k <= n,
                descs@.len() == n,
                total_rows(base) > cy,
                base == base_layouts(programs@, cx as nat),
                description_views(first) == base,
                forall|j: int| 0 <= j < descs@.len() ==> (#[trigger] descs@[j]).width() == cx,
                forall|j: int|
                    0 <= j < n ==> #[trigger] descs@[j].view() == if j < k {
                        reduced(base[j], share(cy as int, n as int, j) as nat)
                    } else {
                        base[j]
                    },
            decreases n - k,
        {
            let count = most_equal_divide(cy as u64, n as u64, k as u64) as usize;
            let mut d = descs.remove(k);
            d.reduce_to_count(count);
            descs.insert(k, d);
            k = k + 1;
        }
        proof {
            assert(description_views(descs@) =~= screen(programs@, cx as nat, cy as nat));
        }
        descs
    } else if total < cy {
        let extra = cy - total;
        let mut again: Vec<DisplayDescription> = Vec::new();
        let mut k: usize = 0;
        while k < n
            invariant
                n == programs@.len(),
                n >= 1,
                0 <= k <= n,
                again@.len() == k,
                total == total_rows(base),
                extra == cy - total,
                base == base_layouts(programs@, cx as nat),
                forall|j: int| 0 <= j < again@.len() ==> (#[trigger] again@[j]).width() == cx,
                forall|j: int|
                    0 <= j < k ==> #[trigger] again@[j].view() == describe(
                        programs@[j].description(),
                        programs@[j].tree(),
                        cx as nat,
                        share(extra as int, n as int, j) as nat,
                    ),
            decreases n - k,
        {
            let added = most_equal_divide(extra as u64, n as u64, k as u64) as usize;
            again.push(programs[k].calc_display_description(cx, added));
            k = k + 1;
        }
        proof {
            assert(description_views(again@) =~= screen(programs@, cx as nat, cy as nat));
        }
        again
    } else {
        proof {
            assert(description_views(descs@) =~= screen(programs@, cx as nat, cy as nat));
        }
        descs
    }
}

proof fn lemma_total_rows_grows(ls: Seq<Seq<LineView>>)
    requires
        ls.len() > 0,
    ensures
        total_rows(ls) == total_rows(ls.drop_last()) + ls.last().len(),
{
}

} // verus!

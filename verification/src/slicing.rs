//! Grouping serialized records into size-capped slices, and rendering one
//! slice as its text form. Packing is greedy: a record that would push the
//! running total over the cap closes the current slice; a single record
//! larger than the cap travels alone in its own slice.

use vstd::prelude::*;
use crate::util::{bytes_of, extend_bytes};

verus! {

broadcast use {
    vstd::std_specs::vec::group_vec_axioms,
    vstd::seq::group_seq_axioms,
};

use vstd::string::StringSliceAdditionalSpecFns;

/// The byte budget of one slice.
pub const MAX_SLICE_SIZE: usize = 8388608;

/// Total size of a group of serialized records.
pub open spec fn sum_lens(g: Seq<Seq<u8>>) -> int
    decreases g.len(),
{
    if g.len() == 0 {
        0
    } else {
        sum_lens(g.drop_last()) + g.last().len()
    }
}

/// All groups of a packing, laid end to end.
pub open spec fn concat_groups(gs: Seq<Seq<Seq<u8>>>) -> Seq<Seq<u8>>
    decreases gs.len(),
{
    if gs.len() == 0 {
        Seq::empty()
    } else {
        concat_groups(gs.drop_last()) + gs.last()
    }
}

/// The greedy packer after the first `n` records: the closed groups, the
/// open group, and the open group's byte total.
pub open spec fn spec_pack_state(items: Seq<Seq<u8>>, n: int) -> (Seq<Seq<Seq<u8>>>, Seq<
    Seq<u8>,
>, int)
    decreases n,
{
    if n <= 0 || n > items.len() {
        (Seq::empty(), Seq::empty(), 0)
    } else {
        let (gs, cur, sz) = spec_pack_state(items, n - 1);
        let l = items[n - 1].len() as int;
        if cur.len() > 0 && sz + l > MAX_SLICE_SIZE as int {
            (gs.push(cur), Seq::empty().push(items[n - 1]), l)
        } else {
            (gs, cur.push(items[n - 1]), sz + l)
        }
    }
}

/// The slices the greedy packer makes of a record list.
pub open spec fn spec_pack(items: Seq<Seq<u8>>) -> Seq<Seq<Seq<u8>>> {
    let (gs, cur, sz) = spec_pack_state(items, items.len() as int);
    if cur.len() > 0 {
        gs.push(cur)
    } else {
        gs
    }
}

/// What holds of every packer state: nothing lost or reordered, no group
/// empty, and no group of two or more records over the cap.
proof fn lemma_pack_state(items: Seq<Seq<u8>>, n: int)
    requires
        0 <= n <= items.len(),
    ensures
        ({
            let (gs, cur, sz) = spec_pack_state(items, n);
            &&& concat_groups(gs) + cur =~= items.take(n)
            &&& sum_lens(cur) == sz
            &&& sz >= 0
            &&& (cur.len() >= 2 ==> sz <= MAX_SLICE_SIZE as int)
            &&& (forall|k: int|
                0 <= k < gs.len() ==> (#[trigger] gs[k]).len() >= 1 && (gs[k].len() >= 2
                    ==> sum_lens(gs[k]) <= MAX_SLICE_SIZE as int))
            &&& (n > 0 ==> cur.len() >= 1)
        }),
    decreases n,
{
    if n == 0 {
        assert(concat_groups(Seq::empty()) + Seq::<Seq<u8>>::empty() =~= items.take(0));
    } else {
        lemma_pack_state(items, n - 1);
        let (gs0, cur0, sz0) = spec_pack_state(items, n - 1);
        let l = items[n - 1].len() as int;
        if cur0.len() > 0 && sz0 + l > MAX_SLICE_SIZE as int {
            let gs = gs0.push(cur0);
            let cur = Seq::<Seq<u8>>::empty().push(items[n - 1]);
            assert(concat_groups(gs) == concat_groups(gs0) + cur0) by {
                assert(gs.drop_last() =~= gs0);
            }
            assert(sum_lens(cur) == l) by {
                assert(cur.drop_last() =~= Seq::<Seq<u8>>::empty());
                assert(sum_lens(Seq::<Seq<u8>>::empty()) == 0);
            }
            assert(concat_groups(gs) + cur =~= items.take(n));
            assert forall|k: int|
                0 <= k < gs.len() implies (#[trigger] gs[k]).len() >= 1 && (gs[k].len() >= 2
                    ==> sum_lens(gs[k]) <= MAX_SLICE_SIZE as int) by {
                if k < gs0.len() {
                    assert(gs[k] == gs0[k]);
                } else {
                    assert(gs[k] == cur0);
                }
            }
        } else {
            let cur = cur0.push(items[n - 1]);
            assert(sum_lens(cur) == sz0 + l) by {
                assert(cur.drop_last() =~= cur0);
            }
            assert(concat_groups(gs0) + cur =~= items.take(n));
        }
    }
}

/// The slicing law: the groups hold exactly the records, in their order
/// and unsplit; no group is empty; and only a lone oversized record makes
/// a slice over the cap.
pub proof fn lemma_pack(items: Seq<Seq<u8>>)
    ensures
        concat_groups(spec_pack(items)) =~= items,
        forall|k: int| 0 <= k < spec_pack(items).len() ==> (#[trigger] spec_pack(items)[k]).len()
            >= 1,
        forall|k: int|
            0 <= k < spec_pack(items).len() && (#[trigger] spec_pack(items)[k]).len() >= 2
                ==> sum_lens(spec_pack(items)[k]) <= MAX_SLICE_SIZE as int,
{
    lemma_pack_state(items, items.len() as int);
    let (gs, cur, sz) = spec_pack_state(items, items.len() as int);
    assert(items.take(items.len() as int) =~= items);
    if cur.len() > 0 {
        let p = gs.push(cur);
        assert(concat_groups(p) == concat_groups(gs) + cur) by {
            assert(p.drop_last() =~= gs);
        }
        assert forall|k: int|
            0 <= k < p.len() implies (#[trigger] p[k]).len() >= 1 && (p[k].len() >= 2
                ==> sum_lens(p[k]) <= MAX_SLICE_SIZE as int) by {
            if k < gs.len() {
                assert(p[k] == gs[k]);
            } else {
                assert(p[k] == cur);
            }
        }
    } else {
        assert(concat_groups(gs) + cur =~= concat_groups(gs));
    }
}

/// Packs serialized records into size-capped groups, greedily and in
/// order.
#[verifier::loop_isolation(false)]
pub fn pack_slices(items: &Vec<Vec<u8>>) -> (r: Vec<Vec<Vec<u8>>>)
    ensures
        r.deep_view() == spec_pack(items.deep_view()),
{
    let ghost iv = items.deep_view();
    let mut groups: Vec<Vec<Vec<u8>>> = Vec::new();
    let mut cur: Vec<Vec<u8>> = Vec::new();
    let mut size: usize = 0;
    let mut i: usize = 0;
    proof {
        assert(iv.len() == items@.len());
    }
    while i < items.len()
        invariant
            0 <= i <= items@.len(),
            iv.len() == items@.len(),
            (groups.deep_view(), cur.deep_view(), size as int) == spec_pack_state(iv, i as int),
            size <= usize::MAX,
        decreases items@.len() - i,
    {
        proof {
            lemma_pack_state(iv, i as int);
            lemma_pack_state(iv, i as int + 1);
            assert(iv[i as int] == items@[i as int]@);
        }
        let l = items[i].len();
        let item = bytes_of(items[i].as_slice());
        if cur.len() > 0 && (size as u128) + (l as u128) > 8388608u128 {
            proof {
                assert(size as int + l as int > MAX_SLICE_SIZE as int);
            }
            let ghost gpre = groups.deep_view();
            let ghost cpre = cur.deep_view();
            let mut fresh: Vec<Vec<u8>> = Vec::new();
            core::mem::swap(&mut cur, &mut fresh);
            groups.push(fresh);
            cur.push(item);
            size = l;
            proof {
                assert(groups.deep_view() =~~= gpre.push(cpre));
                assert(cur.deep_view() =~~= Seq::<Seq<u8>>::empty().push(iv[i as int]));
            }
        } else {
            proof {
                if cur.deep_view().len() > 0 {
                    assert(size as int + l as int <= MAX_SLICE_SIZE as int);
                }
                lemma_sum_lens_nonneg(cur.deep_view());
            }
            let ghost cpre = cur.deep_view();
            cur.push(item);
            size = size + l;
            proof {
                assert(cur.deep_view() =~~= cpre.push(iv[i as int]));
            }
        }
        i = i + 1;
    }
    if cur.len() > 0 {
        let ghost gpre = groups.deep_view();
        let ghost cpre = cur.deep_view();
        groups.push(cur);
        proof {
            assert(groups.deep_view() =~~= gpre.push(cpre));
        }
    }
    proof {
        assert(groups.deep_view() =~~= spec_pack(iv));
    }
    groups
}

proof fn lemma_sum_lens_nonneg(g: Seq<Seq<u8>>)
    ensures
        sum_lens(g) >= 0,
    decreases g.len(),
{
    if g.len() > 0 {
        lemma_sum_lens_nonneg(g.drop_last());
    }
}

// ---------------------------------------------------------- slice text

/// `{"chunks":[` and a newline.
pub open spec fn slice_header() -> Seq<u8> {
    seq![123u8, 34u8, 99u8, 104u8, 117u8, 110u8, 107u8, 115u8, 34u8, 58u8, 91u8, 10u8]
}

/// `]}` and a newline.
pub open spec fn slice_footer() -> Seq<u8> {
    seq![93u8, 125u8, 10u8]
}

/// The first `n` records of the body: each record, a comma after all but
/// the last record of the whole slice, and a newline.
pub open spec fn slice_body(cs: Seq<Seq<u8>>, n: int) -> Seq<u8>
    decreases n,
{
    if n <= 0 || n > cs.len() {
        Seq::empty()
    } else {
        slice_body(cs, n - 1) + cs[n - 1] + (if n < cs.len() {
            seq![44u8]
        } else {
            Seq::<u8>::empty()
        }) + seq![10u8]
    }
}

/// The text of one slice file.
pub open spec fn spec_render_slice(cs: Seq<Seq<u8>>) -> Seq<u8> {
    slice_header() + slice_body(cs, cs.len() as int) + slice_footer()
}

/// Renders one slice: the serialized records wrapped in the one-key
/// object, one record per line.
#[verifier::loop_isolation(false)]
pub fn render_slice(chunks: &Vec<Vec<u8>>) -> (r: Vec<u8>)
    ensures
        r@ == spec_render_slice(chunks.deep_view()),
{
    broadcast use vstd::string::is_ascii_spec_bytes;

    let ghost cv = chunks.deep_view();
    let head = "{\"chunks\":[\n";
    let tail = "]}\n";
    proof {
        reveal_strlit("{\"chunks\":[\n");
        reveal_strlit("]}\n");
        assert(vstd::string::is_ascii(head));
        assert(vstd::string::is_ascii(tail));
        assert(head.spec_bytes() =~= slice_header());
        assert(tail.spec_bytes() =~= slice_footer());
    }
    let mut out: Vec<u8> = Vec::new();
    extend_bytes(&mut out, head.as_bytes());
    let mut i: usize = 0;
    proof {
        assert(out@ =~= slice_header() + slice_body(cv, 0));
    }
    while i < chunks.len()
        invariant
            0 <= i <= chunks@.len(),
            cv.len() == chunks@.len(),
            out@ == slice_header() + slice_body(cv, i as int),
        decreases chunks@.len() - i,
    {
        proof {
            assert(cv[i as int] == chunks@[i as int]@);
        }
        extend_bytes(&mut out, chunks[i].as_slice());
        if i + 1 < chunks.len() {
            out.push(44);
        }
        out.push(10);
        proof {
            assert(out@ =~= slice_header() + slice_body(cv, i as int + 1));
        }
        i = i + 1;
    }
    extend_bytes(&mut out, tail.as_bytes());
    proof {
        assert(out@ =~= spec_render_slice(cv));
    }
    out
}

} // verus!

//! Rendering a document tree as compact JSON text. Strings are escaped
//! the standard way: quote, backslash and the named control characters by
//! a two-byte escape, any other control byte as a lower-case `\u00..`
//! form; everything else, multi-byte UTF-8 included, passes through.

use vstd::prelude::*;
use crate::doc::{Doc, DocM};
use crate::ext::{f64_json_of, f64_render_json};
use crate::numfmt::{dec_int, render_i64};
use crate::util::{bytes_of, extend_bytes};

verus! {

broadcast use {
    vstd::std_specs::vec::group_vec_axioms,
    vstd::seq::group_seq_axioms,
};

/// A lower-case hex digit.
pub open spec fn hex_digit(x: int) -> u8 {
    if x < 10 {
        (48 + x) as u8
    } else {
        (87 + x) as u8
    }
}

/// The escape of one byte inside a JSON string.
pub open spec fn esc_byte(c: u8) -> Seq<u8> {
    if c == 34 {
        seq![92u8, 34u8]
    } else if c == 92 {
        seq![92u8, 92u8]
    } else if c == 8 {
        seq![92u8, 98u8]
    } else if c == 12 {
        seq![92u8, 102u8]
    } else if c == 10 {
        seq![92u8, 110u8]
    } else if c == 13 {
        seq![92u8, 114u8]
    } else if c == 9 {
        seq![92u8, 116u8]
    } else if c < 32 {
        seq![92u8, 117u8, 48u8, 48u8, hex_digit(c as int / 16), hex_digit(c as int % 16)]
    } else {
        seq![c]
    }
}

/// The escaped body of a JSON string.
pub open spec fn esc(s: Seq<u8>) -> Seq<u8>
    decreases s.len(),
{
    if s.len() == 0 {
        Seq::empty()
    } else {
        esc(s.drop_last()) + esc_byte(s.last())
    }
}

/// A string literal: quote, escaped body, quote.
pub open spec fn render_str(s: Seq<u8>) -> Seq<u8> {
    seq![34u8] + esc(s) + seq![34u8]
}

/// The compact text of a document node.
pub open spec fn spec_render(d: DocM) -> Seq<u8>
    decreases d, 0int,
{
    match d {
        DocM::Null => seq![110u8, 117u8, 108u8, 108u8],
        DocM::Bool(b) => if b {
            seq![116u8, 114u8, 117u8, 101u8]
        } else {
            seq![102u8, 97u8, 108u8, 115u8, 101u8]
        },
        DocM::Int(v) => dec_int(v as int),
        DocM::Float(bits) => f64_json_of(bits),
        DocM::Str(s) => render_str(s),
        DocM::Arr(a) => seq![91u8] + arr_body(a, a.len() as int) + seq![93u8],
        DocM::Obj(m) => seq![123u8] + obj_body(m, m.len() as int) + seq![125u8],
    }
}

/// The first `n` array elements, comma separated.
pub open spec fn arr_body(a: Seq<DocM>, n: int) -> Seq<u8>
    decreases a, n,
{
    if n <= 0 || n > a.len() {
        Seq::empty()
    } else {
        arr_body(a, n - 1) + (if n > 1 {
            seq![44u8]
        } else {
            Seq::<u8>::empty()
        }) + spec_render(a[n - 1])
    }
}

/// The first `n` object entries, comma separated.
pub open spec fn obj_body(m: Seq<(Seq<u8>, DocM)>, n: int) -> Seq<u8>
    decreases m, n,
{
    if n <= 0 || n > m.len() {
        Seq::empty()
    } else {
        obj_body(m, n - 1) + (if n > 1 {
            seq![44u8]
        } else {
            Seq::<u8>::empty()
        }) + render_str(m[n - 1].0) + seq![58u8] + spec_render(m[n - 1].1)
    }
}

/// Appends the escaped body of a string.
#[verifier::loop_isolation(false)]
fn push_escaped(out: &mut Vec<u8>, s: &[u8])
    ensures
        final(out)@ == old(out)@ + esc(s@),
{
    let mut i: usize = 0;
    proof {
        assert(s@.take(0) =~= Seq::<u8>::empty());
        assert(old(out)@ + esc(s@.take(0)) =~= old(out)@);
    }
    while i < s.len()
        invariant
            0 <= i <= s@.len(),
            out@ == old(out)@ + esc(s@.take(i as int)),
        decreases s@.len() - i,
    {
        let c = s[i];
        proof {
            assert(s@.take(i as int + 1).drop_last() =~= s@.take(i as int));
            assert(s@.take(i as int + 1).last() == c);
        }
        let ghost pre = out@;
        if c == 34 {
            out.push(92);
            out.push(34);
        } else if c == 92 {
            out.push(92);
            out.push(92);
        } else if c == 8 {
            out.push(92);
            out.push(98);
        } else if c == 12 {
            out.push(92);
            out.push(102);
        } else if c == 10 {
            out.push(92);
            out.push(110);
        } else if c == 13 {
            out.push(92);
            out.push(114);
        } else if c == 9 {
            out.push(92);
            out.push(116);
        } else if c < 32 {
            out.push(92);
            out.push(117);
            out.push(48);
            out.push(48);
            let hi = c / 16;
            let lo = c % 16;
            out.push(if hi < 10 {
                48 + hi
            } else {
                87 + hi
            });
            out.push(if lo < 10 {
                48 + lo
            } else {
                87 + lo
            });
        } else {
            out.push(c);
        }
        proof {
            assert(out@ =~= pre + esc_byte(c));
            assert(out@ =~= old(out)@ + esc(s@.take(i as int + 1)));
        }
        i = i + 1;
    }
    proof {
        assert(s@.take(s@.len() as int) =~= s@);
    }
}

/// Renders one document node as compact JSON text.
#[verifier::loop_isolation(false)]
#[verifier::rlimit(100)]
pub fn render_doc(d: &Doc) -> (r: Vec<u8>)
    ensures
        r@ == spec_render(d@),
    decreases *d,
{
    match d {
        Doc::Null => {
            let mut out: Vec<u8> = Vec::new();
            out.push(110);
            out.push(117);
            out.push(108);
            out.push(108);
            proof {
                assert(out@ =~= spec_render(d@));
            }
            out
        },
        Doc::Bool(b) => {
            let mut out: Vec<u8> = Vec::new();
            if *b {
                out.push(116);
                out.push(114);
                out.push(117);
                out.push(101);
            } else {
                out.push(102);
                out.push(97);
                out.push(108);
                out.push(115);
                out.push(101);
            }
            proof {
                assert(out@ =~= spec_render(d@));
            }
            out
        },
        Doc::Int(v) => render_i64(*v),
        Doc::Float(bits) => f64_render_json(*bits),
        Doc::Str(s) => {
            let mut out: Vec<u8> = Vec::new();
            out.push(34);
            push_escaped(&mut out, s.as_slice());
            out.push(34);
            proof {
                assert(out@ =~= render_str(s@));
            }
            out
        },
        Doc::Arr(l) => {
            proof {
                reveal_with_fuel(<Doc as vstd::view::View>::view, 2);
                assert(d@ matches DocM::Arr(x) && x.len() == l@.len());
                assert forall|j: int| 0 <= j < l@.len() implies d@->Arr_0[j] == l@[j]@ by {}
            }
            let ghost av = d@->Arr_0;
            let mut out: Vec<u8> = Vec::new();
            out.push(91);
            let mut i: usize = 0;
            proof {
                assert(out@ =~= seq![91u8] + arr_body(av, 0));
            }
            while i < l.len()
                invariant
                    0 <= i <= l@.len(),
                    out@ == seq![91u8] + arr_body(av, i as int),
                decreases l@.len() - i, 0int,
            {
                if i > 0 {
                    out.push(44);
                }
                let e = render_doc(&l[i]);
                extend_bytes(&mut out, e.as_slice());
                proof {
                    assert(av[i as int] == l@[i as int]@);
                    assert(out@ =~= seq![91u8] + arr_body(av, i as int + 1));
                }
                i = i + 1;
            }
            out.push(93);
            proof {
                assert(out@ =~= spec_render(d@));
            }
            out
        },
        Doc::Obj(m) => {
            proof {
                reveal_with_fuel(<Doc as vstd::view::View>::view, 2);
                assert(d@ matches DocM::Obj(x) && x.len() == m@.len());
                assert forall|j: int|
                    0 <= j < m@.len() implies d@->Obj_0[j] == (m@[j].0@, m@[j].1@) by {}
            }
            let ghost mv = d@->Obj_0;
            let mut out: Vec<u8> = Vec::new();
            out.push(123);
            let mut i: usize = 0;
            proof {
                assert(out@ =~= seq![123u8] + obj_body(mv, 0));
            }
            while i < m.len()
                invariant
                    0 <= i <= m@.len(),
                    out@ == seq![123u8] + obj_body(mv, i as int),
                decreases m@.len() - i, 0int,
            {
                if i > 0 {
                    out.push(44);
                }
                out.push(34);
                push_escaped(&mut out, m[i].0.as_slice());
                out.push(34);
                out.push(58);
                let e = render_doc(&m[i].1);
                extend_bytes(&mut out, e.as_slice());
                proof {
                    assert(mv[i as int] == (m@[i as int].0@, m@[i as int].1@));
                    assert(out@ =~= seq![123u8] + obj_body(mv, i as int + 1));
                }
                i = i + 1;
            }
            out.push(125);
            proof {
                assert(out@ =~= spec_render(d@));
            }
            out
        },
    }
}

} // verus!

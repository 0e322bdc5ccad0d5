//! The canonical persisted form: one state record as pretty-printed JSON,
//! with two-space indentation, the fields in declaration order, and the
//! `maximized` field optional (absent means false).
//!
//! `json_of` gives the exact bytes written for a record; `encode_state`
//! produces them and `parse_state` recognises them.  This pins the write
//! path down to the byte: what is saved is canonical, unique per record, and
//! reads back as the same record.  The load path is wider than this reader:
//! the shell's JSON deserializer accepts any JSON rendition of the record —
//! compact, reordered, with other whitespace — and hands the plain record
//! in; the decisions taken on it are verified in `manager`.

use vstd::prelude::*;

use crate::digits::dec;
use crate::digits::inum_at;
use crate::digits::is_digit;
use crate::digits::lemma_dec_digits;
use crate::digits::lemma_num_at_run;
use crate::digits::lemma_num_at_same;
use crate::digits::num_at;
use crate::digits::parse_digits;
use crate::digits::parse_signed;
use crate::digits::push_dec_i32;
use crate::digits::push_dec_u32;
use crate::digits::sdec;
use crate::state::WindowState;

verus! {

/// The bytes of `{\n  "width": `.
pub open spec fn chunk_width() -> Seq<u8> {
    seq![123u8, 10u8, 32u8, 32u8, 34u8, 119u8, 105u8, 100u8, 116u8, 104u8, 34u8, 58u8, 32u8]
}

/// The bytes of `,\n  "height": `.
pub open spec fn chunk_height() -> Seq<u8> {
    seq![44u8, 10u8, 32u8, 32u8, 34u8, 104u8, 101u8, 105u8, 103u8, 104u8, 116u8, 34u8, 58u8, 32u8]
}

/// The bytes of `,\n  "x": `.
pub open spec fn chunk_x() -> Seq<u8> {
    seq![44u8, 10u8, 32u8, 32u8, 34u8, 120u8, 34u8, 58u8, 32u8]
}

/// The bytes of `,\n  "y": `.
pub open spec fn chunk_y() -> Seq<u8> {
    seq![44u8, 10u8, 32u8, 32u8, 34u8, 121u8, 34u8, 58u8, 32u8]
}

/// The bytes of `,\n  "maximized": `.
pub open spec fn chunk_maximized() -> Seq<u8> {
    seq![
        44u8,
        10u8,
        32u8,
        32u8,
        34u8,
        109u8,
        97u8,
        120u8,
        105u8,
        109u8,
        105u8,
        122u8,
        101u8,
        100u8,
        34u8,
        58u8,
        32u8,
    ]
}

/// The bytes of `true`.
pub open spec fn lit_true() -> Seq<u8> {
    seq![116u8, 114u8, 117u8, 101u8]
}

/// The bytes of `false`.
pub open spec fn lit_false() -> Seq<u8> {
    seq![102u8, 97u8, 108u8, 115u8, 101u8]
}

/// The closing bytes `\n}`.
pub open spec fn lit_end() -> Seq<u8> {
    seq![10u8, 125u8]
}

/// The JSON literal of a boolean.
pub open spec fn bool_lit(m: bool) -> Seq<u8> {
    if m {
        lit_true()
    } else {
        lit_false()
    }
}

/// The encoding of the four geometry fields, up to but not including the
/// `maximized` member.
pub open spec fn prefix_of(st: WindowState) -> Seq<u8> {
    chunk_width() + dec(st.width as nat) + chunk_height() + dec(st.height as nat) + chunk_x()
        + sdec(st.x as int) + chunk_y() + sdec(st.y as int)
}

/// The `maximized` member and the closing brace.
pub open spec fn tail_of(m: bool) -> Seq<u8> {
    chunk_maximized() + bool_lit(m) + lit_end()
}

/// The exact bytes persisted for a record.
pub open spec fn json_of(st: WindowState) -> Seq<u8> {
    prefix_of(st) + tail_of(st.maximized)
}

/// The same encoding with the optional `maximized` member left out; it
/// decodes with `maximized` false.
pub open spec fn json_of_short(st: WindowState) -> Seq<u8> {
    prefix_of(st) + lit_end()
}

/// Position of the width numeral: just after `chunk_width`.
pub open spec fn off_ch(st: WindowState) -> int {
    13 + dec(st.width as nat).len() as int
}

pub open spec fn off_h(st: WindowState) -> int {
    off_ch(st) + 14
}

pub open spec fn off_cx(st: WindowState) -> int {
    off_h(st) + dec(st.height as nat).len() as int
}

pub open spec fn off_x(st: WindowState) -> int {
    off_cx(st) + 9
}

pub open spec fn off_cy(st: WindowState) -> int {
    off_x(st) + sdec(st.x as int).len() as int
}

pub open spec fn off_y(st: WindowState) -> int {
    off_cy(st) + 9
}

/// Position just past the y numeral: the start of the tail.
pub open spec fn off_tail(st: WindowState) -> int {
    off_y(st) + sdec(st.y as int).len() as int
}

/// Where a byte string is the encoding of `st` (in either form), the
/// numerals and separators stand at the positions the offsets give.
#[verifier::rlimit(100)]
proof fn json_parts(st: WindowState, s: Seq<u8>)
    requires
        s == json_of(st) || s == json_of_short(st),
    ensures
        prefix_of(st).len() == off_tail(st),
        13 < off_ch(st) < off_h(st) < off_cx(st) < off_x(st) < off_cy(st) < off_y(st) < off_tail(
            st,
        ),
        off_tail(st) + 2 <= s.len(),
        s.subrange(0, 13) == chunk_width(),
        num_at(s, 13, st.width as nat),
        s.subrange(off_ch(st), off_h(st)) == chunk_height(),
        num_at(s, off_h(st), st.height as nat),
        s.subrange(off_cx(st), off_x(st)) == chunk_x(),
        inum_at(s, off_x(st), st.x as int),
        s.subrange(off_cy(st), off_y(st)) == chunk_y(),
        inum_at(s, off_y(st), st.y as int),
        s == json_of(st) ==> {
            &&& s.len() == off_tail(st) + 17 + bool_lit(st.maximized).len() + 2
            &&& s.subrange(off_tail(st), off_tail(st) + 17) == chunk_maximized()
            &&& s.subrange(off_tail(st) + 17, off_tail(st) + 17 + bool_lit(st.maximized).len())
                == bool_lit(st.maximized)
        },
        s == json_of_short(st) ==> s.len() == off_tail(st) + 2,
{
    lemma_dec_digits(st.width as nat);
    lemma_dec_digits(st.height as nat);
    if st.x < 0 {
        lemma_dec_digits((-(st.x as int)) as nat);
    } else {
        lemma_dec_digits((st.x as int) as nat);
    }
    if st.y < 0 {
        lemma_dec_digits((-(st.y as int)) as nat);
    } else {
        lemma_dec_digits((st.y as int) as nat);
    }
    let rest = if s == json_of(st) {
        tail_of(st.maximized)
    } else {
        lit_end()
    };
    assert(s == prefix_of(st) + rest);
    assert(s.subrange(0, 13) =~= chunk_width());
    assert(s.subrange(13, off_ch(st)) =~= dec(st.width as nat));
    assert(s.subrange(off_ch(st), off_h(st)) =~= chunk_height());
    assert(s.subrange(off_h(st), off_cx(st)) =~= dec(st.height as nat));
    assert(s.subrange(off_cx(st), off_x(st)) =~= chunk_x());
    assert(s.subrange(off_x(st), off_cy(st)) =~= sdec(st.x as int));
    assert(s.subrange(off_cy(st), off_y(st)) =~= chunk_y());
    assert(s.subrange(off_y(st), off_tail(st)) =~= sdec(st.y as int));
    assert(s.subrange(off_tail(st), s.len() as int) =~= rest);
    // the byte after each numeral is a separator, never a digit
    assert(s[off_ch(st)] == chunk_height()[0]);
    assert(s[off_cx(st)] == chunk_x()[0]);
    assert(s[off_cy(st)] == chunk_y()[0]);
    assert(s[off_tail(st)] == rest[0]);
    assert(rest[0] == 44u8 || rest[0] == 10u8);
    assert(num_at(s, 13, st.width as nat));
    assert(num_at(s, off_h(st), st.height as nat));
    // signed numerals: peel the optional minus sign
    if st.x < 0 {
        let m = (-(st.x as int)) as nat;
        assert(s[off_x(st)] == sdec(st.x as int)[0]);
        assert(sdec(st.x as int)[0] == 45u8);
        assert(s.subrange(off_x(st) + 1, off_cy(st)) =~= dec(m));
        assert(num_at(s, off_x(st) + 1, m));
    } else {
        assert(s.subrange(off_x(st), off_cy(st)) == dec((st.x as int) as nat));
        assert(num_at(s, off_x(st), (st.x as int) as nat));
    }
    assert(inum_at(s, off_x(st), st.x as int));
    if st.y < 0 {
        let m = (-(st.y as int)) as nat;
        assert(s[off_y(st)] == sdec(st.y as int)[0]);
        assert(sdec(st.y as int)[0] == 45u8);
        assert(s.subrange(off_y(st) + 1, off_tail(st)) =~= dec(m));
        assert(num_at(s, off_y(st) + 1, m));
    } else {
        assert(s.subrange(off_y(st), off_tail(st)) == dec((st.y as int) as nat));
        assert(num_at(s, off_y(st), (st.y as int) as nat));
    }
    assert(inum_at(s, off_y(st), st.y as int));
    if s == json_of(st) {
        assert(s.subrange(off_tail(st), off_tail(st) + 17) =~= chunk_maximized());
        assert(s.subrange(off_tail(st) + 17, off_tail(st) + 17 + bool_lit(st.maximized).len())
            =~= bool_lit(st.maximized));
    }
}

fn chunk_width_bytes() -> (v: Vec<u8>)
    ensures
        v@ == chunk_width(),
{
    let mut v: Vec<u8> = Vec::new();
    v.push(123u8);
    v.push(10u8);
    v.push(32u8);
    v.push(32u8);
    v.push(34u8);
    v.push(119u8);
    v.push(105u8);
    v.push(100u8);
    v.push(116u8);
    v.push(104u8);
    v.push(34u8);
    v.push(58u8);
    v.push(32u8);
    proof {
        assert(v@ =~= chunk_width());
    }
    v
}

fn chunk_height_bytes() -> (v: Vec<u8>)
    ensures
        v@ == chunk_height(),
{
    let mut v: Vec<u8> = Vec::new();
    v.push(44u8);
    v.push(10u8);
    v.push(32u8);
    v.push(32u8);
    v.push(34u8);
    v.push(104u8);
    v.push(101u8);
    v.push(105u8);
    v.push(103u8);
    v.push(104u8);
    v.push(116u8);
    v.push(34u8);
    v.push(58u8);
    v.push(32u8);
    proof {
        assert(v@ =~= chunk_height());
    }
    v
}

fn chunk_x_bytes() -> (v: Vec<u8>)
    ensures
        v@ == chunk_x(),
{
    let mut v: Vec<u8> = Vec::new();
    v.push(44u8);
    v.push(10u8);
    v.push(32u8);
    v.push(32u8);
    v.push(34u8);
    v.push(120u8);
    v.push(34u8);
    v.push(58u8);
    v.push(32u8);
    proof {
        assert(v@ =~= chunk_x());
    }
    v
}

fn chunk_y_bytes() -> (v: Vec<u8>)
    ensures
        v@ == chunk_y(),
{
    let mut v: Vec<u8> = Vec::new();
    v.push(44u8);
    v.push(10u8);
    v.push(32u8);
    v.push(32u8);
    v.push(34u8);
    v.push(121u8);
    v.push(34u8);
    v.push(58u8);
    v.push(32u8);
    proof {
        assert(v@ =~= chunk_y());
    }
    v
}

fn chunk_maximized_bytes() -> (v: Vec<u8>)
    ensures
        v@ == chunk_maximized(),
{
    let mut v: Vec<u8> = Vec::new();
    v.push(44u8);
    v.push(10u8);
    v.push(32u8);
    v.push(32u8);
    v.push(34u8);
    v.push(109u8);
    v.push(97u8);
    v.push(120u8);
    v.push(105u8);
    v.push(109u8);
    v.push(105u8);
    v.push(122u8);
    v.push(101u8);
    v.push(100u8);
    v.push(34u8);
    v.push(58u8);
    v.push(32u8);
    proof {
        assert(v@ =~= chunk_maximized());
    }
    v
}

fn lit_true_bytes() -> (v: Vec<u8>)
    ensures
        v@ == lit_true(),
{
    let mut v: Vec<u8> = Vec::new();
    v.push(116u8);
    v.push(114u8);
    v.push(117u8);
    v.push(101u8);
    proof {
        assert(v@ =~= lit_true());
    }
    v
}

fn lit_false_bytes() -> (v: Vec<u8>)
    ensures
        v@ == lit_false(),
{
    let mut v: Vec<u8> = Vec::new();
    v.push(102u8);
    v.push(97u8);
    v.push(108u8);
    v.push(115u8);
    v.push(101u8);
    proof {
        assert(v@ =~= lit_false());
    }
    v
}

fn lit_end_bytes() -> (v: Vec<u8>)
    ensures
        v@ == lit_end(),
{
    let mut v: Vec<u8> = Vec::new();
    v.push(10u8);
    v.push(125u8);
    proof {
        assert(v@ =~= lit_end());
    }
    v
}

/// True exactly when the bytes of `p` stand in `b` at position `i`.
fn expect_bytes(b: &[u8], i: usize, p: &[u8]) -> (r: bool)
    requires
        i <= b@.len(),
    ensures
        r == (i + p@.len() <= b@.len() && b@.subrange(i as int, i + p@.len()) == p@),
{
    let blen = b.len();
    if p.len() > blen - i {
        proof {
            assert(!(i + p@.len() <= b@.len()));
        }
        return false;
    }
    let mut j: usize = 0;
    while j < p.len()
        invariant
            j <= p@.len(),
            blen == b@.len(),
            i + p@.len() <= blen,
            forall|t: int| 0 <= t < j ==> b@[i + t] == p@[t],
        decreases p@.len() - j,
    {
        if b[i + j] != p[j] {
            proof {
                assert(b@.subrange(i as int, i + p@.len())[j as int] != p@[j as int]);
            }
            return false;
        }
        j = j + 1;
    }
    proof {
        assert(b@.subrange(i as int, i + p@.len()) =~= p@);
    }
    true
}

/// True exactly when the two byte strings are equal.
fn eq_bytes(a: &[u8], b: &[u8]) -> (r: bool)
    ensures
        r == (a@ == b@),
{
    if a.len() != b.len() {
        return false;
    }
    let mut j: usize = 0;
    while j < a.len()
        invariant
            j <= a@.len(),
            a@.len() == b@.len(),
            forall|t: int| 0 <= t < j ==> a@[t] == b@[t],
        decreases a@.len() - j,
    {
        if a[j] != b[j] {
            return false;
        }
        j = j + 1;
    }
    proof {
        assert(a@ =~= b@);
    }
    true
}

/// Encode a record as the pretty-printed JSON persisted on disk.
pub fn encode_state(st: &WindowState) -> (r: Vec<u8>)
    ensures
        r@ == json_of(*st),
{
    let mut out: Vec<u8> = Vec::new();
    let mut c = chunk_width_bytes();
    out.append(&mut c);
    proof {
        assert(out@ =~= chunk_width());
    }
    push_dec_u32(&mut out, st.width);
    let mut c = chunk_height_bytes();
    out.append(&mut c);
    push_dec_u32(&mut out, st.height);
    let mut c = chunk_x_bytes();
    out.append(&mut c);
    push_dec_i32(&mut out, st.x);
    let mut c = chunk_y_bytes();
    out.append(&mut c);
    push_dec_i32(&mut out, st.y);
    proof {
        assert(out@ == prefix_of(*st));
    }
    let mut c = chunk_maximized_bytes();
    out.append(&mut c);
    let mut c = if st.maximized {
        lit_true_bytes()
    } else {
        lit_false_bytes()
    };
    out.append(&mut c);
    let mut c = lit_end_bytes();
    out.append(&mut c);
    proof {
        assert(out@ =~= json_of(*st));
    }
    out
}

/// Encode a record in the short form, without the optional `maximized`
/// member; only meaningful for a record that is not maximized.
fn encode_state_short(st: &WindowState) -> (r: Vec<u8>)
    ensures
        r@ == json_of_short(*st),
{
    let mut out: Vec<u8> = Vec::new();
    let mut c = chunk_width_bytes();
    out.append(&mut c);
    proof {
        assert(out@ =~= chunk_width());
    }
    push_dec_u32(&mut out, st.width);
    let mut c = chunk_height_bytes();
    out.append(&mut c);
    push_dec_u32(&mut out, st.height);
    let mut c = chunk_x_bytes();
    out.append(&mut c);
    push_dec_i32(&mut out, st.x);
    let mut c = chunk_y_bytes();
    out.append(&mut c);
    push_dec_i32(&mut out, st.y);
    proof {
        assert(out@ == prefix_of(*st));
    }
    let mut c = lit_end_bytes();
    out.append(&mut c);
    proof {
        assert(out@ =~= json_of_short(*st));
    }
    out
}

/// Read the fields out of a candidate encoding.  Wherever the input is the
/// encoding of a record, exactly that record comes back; on any other input
/// the result is unspecified and the caller checks it by re-encoding.
#[verifier::rlimit(100)]
#[verifier::spinoff_prover]
fn scan(b: &[u8]) -> (r: Option<WindowState>)
    ensures
        forall|st: WindowState| b@ == json_of(st) ==> r == Some(st),
        forall|st: WindowState| b@ == json_of_short(st) ==> r == Some(
            WindowState { maximized: false, ..st },
        ),
{
    // pins the slice length to a machine word, for the position arithmetic
    let _blen = b.len();
    let cw = chunk_width_bytes();
    if !expect_bytes(b, 0, cw.as_slice()) {
        proof {
            assert forall|st: WindowState|
                b@ != json_of(st) && b@ != json_of_short(st) by {
                if b@ == json_of(st) || b@ == json_of_short(st) {
                    json_parts(st, b@);
                    assert(false);
                }
            }
        }
        return None;
    }
    let r1 = parse_digits(b, 13);
    proof {
        assert forall|st: WindowState| b@ == json_of(st) || b@ == json_of_short(st) implies {
            &&& r1 matches Some(p)
            &&& p.0 == st.width as nat
            &&& p.1 as int == off_ch(st)
        } by {
            json_parts(st, b@);
            if r1 is None {
                assert(num_at(b@, 13, st.width as nat));
                assert(false);
            } else {
                let p = r1->Some_0;
                lemma_num_at_run(b@, 13, p.1 as int, st.width as nat);
            }
        }
    }
    let (wval, k1) = match r1 {
        Some(p) => p,
        None => {
            return None;
        },
    };
    if wval > 0xffffffff {
        proof {
            assert forall|st: WindowState|
                b@ != json_of(st) && b@ != json_of_short(st) by {
                if b@ == json_of(st) || b@ == json_of_short(st) {
                    assert(wval == st.width as nat);
                    assert(false);
                }
            }
        }
        return None;
    }
    let width: u32 = wval as u32;
    let ch = chunk_height_bytes();
    if !expect_bytes(b, k1, ch.as_slice()) {
        proof {
            assert forall|st: WindowState|
                b@ != json_of(st) && b@ != json_of_short(st) by {
                if b@ == json_of(st) || b@ == json_of_short(st) {
                    json_parts(st, b@);
                    assert(b@.subrange(off_ch(st), off_h(st)) == chunk_height());
                    assert(false);
                }
            }
        }
        return None;
    }
    let k2 = k1 + 14;
    let r2 = parse_digits(b, k2);
    proof {
        assert forall|st: WindowState| b@ == json_of(st) || b@ == json_of_short(st) implies {
            &&& r2 matches Some(p)
            &&& p.0 == st.height as nat
            &&& p.1 as int == off_cx(st)
        } by {
            json_parts(st, b@);
            assert(k2 as int == off_h(st));
            if r2 is None {
                assert(num_at(b@, off_h(st), st.height as nat));
                assert(false);
            } else {
                let p = r2->Some_0;
                lemma_num_at_run(b@, k2 as int, p.1 as int, st.height as nat);
            }
        }
    }
    let (hval, k3) = match r2 {
        Some(p) => p,
        None => {
            return None;
        },
    };
    if hval > 0xffffffff {
        proof {
            assert forall|st: WindowState|
                b@ != json_of(st) && b@ != json_of_short(st) by {
                if b@ == json_of(st) || b@ == json_of_short(st) {
                    assert(hval == st.height as nat);
                    assert(false);
                }
            }
        }
        return None;
    }
    let height: u32 = hval as u32;
    let cx = chunk_x_bytes();
    if !expect_bytes(b, k3, cx.as_slice()) {
        proof {
            assert forall|st: WindowState|
                b@ != json_of(st) && b@ != json_of_short(st) by {
                if b@ == json_of(st) || b@ == json_of_short(st) {
                    json_parts(st, b@);
                    assert(b@.subrange(off_cx(st), off_x(st)) == chunk_x());
                    assert(false);
                }
            }
        }
        return None;
    }
    let k4 = k3 + 9;
    let r3 = parse_signed(b, k4);
    proof {
        assert forall|st: WindowState| b@ == json_of(st) || b@ == json_of_short(st) implies {
            &&& r3 matches Some(p)
            &&& p.0 == st.x
            &&& p.1 as int == off_cy(st)
        } by {
            json_parts(st, b@);
            assert(k4 as int == off_x(st));
            assert(inum_at(b@, k4 as int, st.x as int));
        }
    }
    let (x, k5) = match r3 {
        Some(p) => p,
        None => {
            return None;
        },
    };
    let cy = chunk_y_bytes();
    if !expect_bytes(b, k5, cy.as_slice()) {
        proof {
            assert forall|st: WindowState|
                b@ != json_of(st) && b@ != json_of_short(st) by {
                if b@ == json_of(st) || b@ == json_of_short(st) {
                    json_parts(st, b@);
                    assert(b@.subrange(off_cy(st), off_y(st)) == chunk_y());
                    assert(false);
                }
            }
        }
        return None;
    }
    let k6 = k5 + 9;
    let r4 = parse_signed(b, k6);
    proof {
        assert forall|st: WindowState| b@ == json_of(st) || b@ == json_of_short(st) implies {
            &&& r4 matches Some(p)
            &&& p.0 == st.y
            &&& p.1 as int == off_tail(st)
        } by {
            json_parts(st, b@);
            assert(k6 as int == off_y(st));
            assert(inum_at(b@, k6 as int, st.y as int));
        }
    }
    let (y, k7) = match r4 {
        Some(p) => p,
        None => {
            return None;
        },
    };
    let cm = chunk_maximized_bytes();
    if expect_bytes(b, k7, cm.as_slice()) {
        proof {
            assert forall|st: WindowState| b@ != json_of_short(st) by {
                if b@ == json_of_short(st) {
                    json_parts(st, b@);
                    assert(b@.len() == off_tail(st) + 2);
                    assert(false);
                }
            }
        }
        let k8 = k7 + 17;
        let lt = lit_true_bytes();
        if expect_bytes(b, k8, lt.as_slice()) {
            let found = WindowState { width, height, x, y, maximized: true };
            proof {
                assert forall|st: WindowState| b@ == json_of(st) implies Some(found) == Some::<
                    WindowState,
                >(st) by {
                    json_parts(st, b@);
                    if !st.maximized {
                        assert(b@.subrange(off_tail(st) + 17, off_tail(st) + 22) == lit_false());
                        assert(b@[off_tail(st) + 17] == lit_false()[0]);
                        assert(b@.subrange(k8 as int, k8 + 4)[0] == lit_true()[0]);
                        assert(false);
                    }
                }
            }
            return Some(found);
        }
        let lf = lit_false_bytes();
        if expect_bytes(b, k8, lf.as_slice()) {
            let found = WindowState { width, height, x, y, maximized: false };
            proof {
                assert forall|st: WindowState| b@ == json_of(st) implies Some(found) == Some::<
                    WindowState,
                >(st) by {
                    json_parts(st, b@);
                    if st.maximized {
                        assert(b@.subrange(off_tail(st) + 17, off_tail(st) + 21) == lit_true());
                        assert(b@[off_tail(st) + 17] == lit_true()[0]);
                        assert(b@.subrange(k8 as int, k8 + 5)[0] == lit_false()[0]);
                        assert(false);
                    }
                }
            }
            return Some(found);
        }
        proof {
            assert forall|st: WindowState|
                b@ != json_of(st) && b@ != json_of_short(st) by {
                if b@ == json_of(st) {
                    json_parts(st, b@);
                    assert(b@.subrange(off_tail(st) + 17, off_tail(st) + 17 + bool_lit(
                        st.maximized,
                    ).len()) == bool_lit(st.maximized));
                    assert(false);
                }
                if b@ == json_of_short(st) {
                    json_parts(st, b@);
                    assert(false);
                }
            }
        }
        return None;
    }
    let found = WindowState { width, height, x, y, maximized: false };
    proof {
        assert forall|st: WindowState| b@ != json_of(st) by {
            if b@ == json_of(st) {
                json_parts(st, b@);
                assert(b@.subrange(off_tail(st), off_tail(st) + 17) == chunk_maximized());
                assert(false);
            }
        }
        assert forall|st: WindowState| b@ == json_of_short(st) implies Some(found) == Some::<
            WindowState,
        >(WindowState { maximized: false, ..st }) by {
            json_parts(st, b@);
        }
    }
    Some(found)
}

/// Recognise the canonical persisted bytes.  The result is `Some(st)`
/// exactly when the input is what `encode_state` writes for `st`, in the
/// full form or, for a record that is not maximized, in the short form
/// without the `maximized` member; every other byte string — truncated,
/// malformed, or any non-canonical rendition — yields `None`.  This is the
/// exact inverse of the writer; reading the file with the tolerance of a
/// general JSON deserializer is the shell's part.
pub fn parse_state(b: &[u8]) -> (r: Option<WindowState>)
    ensures
        forall|st: WindowState| b@ == json_of(st) ==> r == Some(st),
        forall|st: WindowState| b@ == json_of_short(st) ==> r == Some(
            WindowState { maximized: false, ..st },
        ),
        r matches Some(st) ==> (b@ == json_of(st) || (!st.maximized && b@ == json_of_short(st))),
{
    let cand = match scan(b) {
        Some(c) => c,
        None => {
            return None;
        },
    };
    let canon = encode_state(&cand);
    if eq_bytes(b, canon.as_slice()) {
        proof {
            assert forall|st: WindowState| b@ == json_of_short(st) implies Some(cand) == Some::<
                WindowState,
            >(WindowState { maximized: false, ..st }) by {}
        }
        return Some(cand);
    }
    if !cand.maximized {
        let canon2 = encode_state_short(&cand);
        if eq_bytes(b, canon2.as_slice()) {
            return Some(cand);
        }
    }
    proof {
        assert forall|st: WindowState| b@ != json_of(st) by {
            if b@ == json_of(st) {
                assert(cand == st);
                assert(false);
            }
        }
        assert forall|st: WindowState| b@ != json_of_short(st) by {
            if b@ == json_of_short(st) {
                assert(cand == WindowState { maximized: false, ..st });
                assert(b@ == json_of_short(cand));
                assert(false);
            }
        }
    }
    None
}

/// Round-trip: the encoding pins the record down.  No two different records
/// persist as the same bytes, so decoding a saved file yields, field for
/// field, exactly the record that was saved.
pub proof fn lemma_encoding_injective(a: WindowState, b: WindowState)
    requires
        json_of(a) == json_of(b),
    ensures
        a == b,
{
    let s = json_of(a);
    json_parts(a, s);
    json_parts(b, s);
    lemma_num_at_same(s, 13, a.width as nat, b.width as nat);
    assert(a.width == b.width);
    assert(off_h(a) == off_h(b));
    lemma_num_at_same(s, off_h(a), a.height as nat, b.height as nat);
    assert(a.height == b.height);
    assert(off_x(a) == off_x(b));
    if a.x < 0 && b.x < 0 {
        lemma_num_at_same(s, off_x(a) + 1, (-(a.x as int)) as nat, (-(b.x as int)) as nat);
    } else if a.x >= 0 && b.x >= 0 {
        lemma_num_at_same(s, off_x(a), (a.x as int) as nat, (b.x as int) as nat);
    } else if a.x < 0 {
        assert(s[off_x(a)] == 45u8);
        lemma_dec_digits((b.x as int) as nat);
        assert(s.subrange(off_x(b), off_x(b) + dec((b.x as int) as nat).len())[0] == dec(
            (b.x as int) as nat,
        )[0]);
        assert(is_digit(s[off_x(b)]));
        assert(false);
    } else {
        assert(s[off_x(b)] == 45u8);
        lemma_dec_digits((a.x as int) as nat);
        assert(s.subrange(off_x(a), off_x(a) + dec((a.x as int) as nat).len())[0] == dec(
            (a.x as int) as nat,
        )[0]);
        assert(is_digit(s[off_x(a)]));
        assert(false);
    }
    assert(a.x == b.x);
    assert(off_y(a) == off_y(b));
    if a.y < 0 && b.y < 0 {
        lemma_num_at_same(s, off_y(a) + 1, (-(a.y as int)) as nat, (-(b.y as int)) as nat);
    } else if a.y >= 0 && b.y >= 0 {
        lemma_num_at_same(s, off_y(a), (a.y as int) as nat, (b.y as int) as nat);
    } else if a.y < 0 {
        assert(s[off_y(a)] == 45u8);
        lemma_dec_digits((b.y as int) as nat);
        assert(s.subrange(off_y(b), off_y(b) + dec((b.y as int) as nat).len())[0] == dec(
            (b.y as int) as nat,
        )[0]);
        assert(is_digit(s[off_y(b)]));
        assert(false);
    } else {
        assert(s[off_y(b)] == 45u8);
        lemma_dec_digits((a.y as int) as nat);
        assert(s.subrange(off_y(a), off_y(a) + dec((a.y as int) as nat).len())[0] == dec(
            (a.y as int) as nat,
        )[0]);
        assert(is_digit(s[off_y(a)]));
        assert(false);
    }
    assert(a.y == b.y);
    assert(off_tail(a) == off_tail(b));
    assert(s.len() == off_tail(a) + 17 + bool_lit(a.maximized).len() + 2);
    assert(s.len() == off_tail(b) + 17 + bool_lit(b.maximized).len() + 2);
    assert(bool_lit(a.maximized).len() == bool_lit(b.maximized).len());
    assert(a.maximized == b.maximized);
}

/// The persisted content is a function of the record alone: saving the same
/// record twice writes byte-identical files.
pub proof fn lemma_persisted_unique(st: WindowState, b1: Seq<u8>, b2: Seq<u8>)
    requires
        b1 == json_of(st),
        b2 == json_of(st),
    ensures
        b1 == b2,
{
}

} // verus!

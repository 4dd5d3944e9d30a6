//! The simple text output protocol: splitting text into the buffers that the console is given.
use vstd::prelude::*;
use crate::uefi::cstr::{bmp_prefix_len, ucs2_encode_units, ucs2_units};

verus! {

/// The most units that one buffer handed to the console holds, before its terminating nul.
pub const OUTPUT_BUF_LEN: usize = 64;

/// The units that a console is given for `u`: a carriage return before every line feed.
pub open spec fn crlf(u: Seq<u16>) -> Seq<u16>
    decreases u.len(),
{
    if u.len() == 0 {
        Seq::empty()
    } else if u.last() == 10 {
        crlf(u.drop_last()) + seq![13u16, 10u16]
    } else {
        crlf(u.drop_last()).push(u.last())
    }
}

/// How many full buffers are handed out while `n` units are written: a full buffer is handed out
/// when one more unit follows it.
pub open spec fn flush_count(n: int) -> int {
    if n <= 0 {
        0
    } else {
        (n - 1) / 64
    }
}

/// The state of writing the units `t`: `out` holds the full buffers handed out, each with its
/// nul, and `cur` the units waiting in the last buffer.
pub open spec fn output_state(t: Seq<u16>, out: Seq<Vec<u16>>, cur: Seq<u16>) -> bool {
    let f = flush_count(t.len() as int);
    &&& out.len() == f
    &&& forall|k: int| 0 <= k < f ==> (#[trigger] out[k])@ == t.subrange(64 * k, 64 * k + 64).push(0)
    &&& cur == t.subrange(64 * f, t.len() as int)
    &&& 64 * f <= t.len()
    &&& t.len() > 0 ==> 1 <= cur.len() <= 64
}

proof fn lemma_flush_step(n: int)
    requires
        n > 0,
    ensures
        1 <= n - 64 * flush_count(n) <= 64,
        n - 64 * flush_count(n) < 64 ==> flush_count(n + 1) == flush_count(n),
        n - 64 * flush_count(n) == 64 ==> flush_count(n + 1) == flush_count(n) + 1,
{
    let q = (n - 1) / 64;
    vstd::arithmetic::div_mod::lemma_fundamental_div_mod(n - 1, 64);
    vstd::arithmetic::div_mod::lemma_fundamental_div_mod(n, 64);
    vstd::arithmetic::div_mod::lemma_mod_bound(n - 1, 64);
    vstd::arithmetic::div_mod::lemma_mod_bound(n, 64);
    if n - 64 * q < 64 {
        vstd::arithmetic::div_mod::lemma_div_pos_is_pos(n, 64);
        assert(n / 64 == q) by (nonlinear_arith)
            requires
                n - 1 == 64 * q + (n - 1) % 64,
                n == 64 * (n / 64) + n % 64,
                0 <= n % 64 < 64,
                n - 64 * q < 64,
                n - 64 * q >= 1;
    } else {
        assert(n / 64 == q + 1) by (nonlinear_arith)
            requires
                n - 1 == 64 * q + (n - 1) % 64,
                n == 64 * (n / 64) + n % 64,
                0 <= n % 64 < 64,
                0 <= (n - 1) % 64 < 64,
                n - 64 * q == 64;
    }
}

/// Writes `ch` after the units `t` already written: the waiting buffer is handed out first if it
/// is full.
fn put_unit(out: &mut Vec<Vec<u16>>, cur: &mut Vec<u16>, ch: u16, Ghost(t): Ghost<Seq<u16>>)
    requires
        output_state(t, old(out)@, old(cur)@),
    ensures
        output_state(t.push(ch), final(out)@, final(cur)@),
{
    let ghost n = t.len() as int;
    proof {
        if n > 0 {
            lemma_flush_step(n);
        }
    }
    if cur.len() == OUTPUT_BUF_LEN {
        let mut full: Vec<u16> = Vec::new();
        core::mem::swap(&mut full, cur);
        full.push(0);
        out.push(full);
    }
    cur.push(ch);
    proof {
        let t2 = t.push(ch);
        let f2 = flush_count(t2.len() as int);
        let f = flush_count(n);
        assert forall|k: int| 0 <= k < f2 implies (#[trigger] out@[k])@ == t2.subrange(64 * k, 64 * k + 64).push(0) by {
            if k < f {
                assert(out@[k] == old(out)@[k]);
                assert(t2.subrange(64 * k, 64 * k + 64) =~= t.subrange(64 * k, 64 * k + 64));
            } else {
                assert(t2.subrange(64 * k, 64 * k + 64) =~= t.subrange(64 * f, n));
            }
        }
        assert(cur@ =~= t2.subrange(64 * f2, t2.len() as int));
    }
}

/// The buffers that writing `s` to a text console hands out, in order, each with its terminating
/// nul, and whether `s` could be encoded in full.
///
/// `s` is encoded as UCS-2 up to its first character outside the Basic Multilingual Plane, with
/// a carriage return before every line feed. The units go into buffers of 64; a buffer is handed
/// out when it is full and another unit follows. When `s` is encoded in full, the last buffer is
/// handed out too; otherwise it is not, and writing `s` ends in the warning that a glyph is
/// unknown.
pub fn output_str_buffers(s: &str) -> (r: (Vec<Vec<u16>>, bool))
    ensures
        ({
            let t = crlf(ucs2_units(s@.take(bmp_prefix_len(s@))));
            let f = flush_count(t.len() as int);
            &&& r.1 == (bmp_prefix_len(s@) == s@.len())
            &&& r.0@.len() == if r.1 { f + 1 } else { f }
            &&& forall|k: int| 0 <= k < f ==> (#[trigger] r.0@[k])@ == t.subrange(64 * k, 64 * k + 64).push(0)
            &&& r.1 ==> r.0@[f]@ == t.subrange(64 * f, t.len() as int).push(0)
        }),
{
    let (units, res) = ucs2_encode_units(s);
    let ghost all = ucs2_units(s@.take(bmp_prefix_len(s@)));
    let mut out: Vec<Vec<u16>> = Vec::new();
    let mut cur: Vec<u16> = Vec::new();
    let ghost mut t: Seq<u16> = Seq::empty();
    let mut i: usize = 0;
    proof {
        assert(units@.take(0) =~= Seq::<u16>::empty());
        assert(cur@ =~= t.subrange(0, 0));
    }
    while i < units.len()
        invariant
            units@ == all,
            i <= units@.len(),
            t == crlf(units@.take(i as int)),
            output_state(t, out@, cur@),
        decreases units@.len() - i,
    {
        let ch = units[i];
        proof {
            assert(units@.take(i + 1).drop_last() =~= units@.take(i as int));
        }
        if ch == 10 {
            put_unit(&mut out, &mut cur, 13, Ghost(t));
            proof {
                t = t.push(13);
            }
        }
        put_unit(&mut out, &mut cur, ch, Ghost(t));
        proof {
            t = t.push(ch);
            if ch == 10 {
                assert(t =~= crlf(units@.take(i as int)) + seq![13u16, 10u16]);
            }
        }
        i = i + 1;
    }
    proof {
        assert(units@.take(units@.len() as int) =~= units@);
    }
    let ok = res.is_ok();
    if ok {
        cur.push(0);
        out.push(cur);
    }
    (out, ok)
}

} // verus!

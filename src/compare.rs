//! Comparing stored content with new content under the same digest, one
//! window of bytes at a time.

use crate::digest::bytes_equal;
use vstd::arithmetic::div_mod::{lemma_fundamental_div_mod, lemma_mod_pos_bound};
use vstd::prelude::*;

verus! {

/// The number of bytes read from each stream per comparison step.
pub const WINDOW: usize = 4096;

/// The outcome of comparing one window of each stream.
#[derive(Debug, PartialEq, Eq, Structural)]
pub enum WindowVerdict {
    /// The windows differ: two contents share one digest.
    Collision,
    /// Both streams have ended with no difference: the contents are the same.
    Identical,
    /// The windows agree and hold bytes: compare the next ones.
    Continue,
}

/// The `k`-th window of `w` bytes of `s`, shorter or empty past its end.
pub open spec fn window(s: Seq<u8>, k: nat, w: nat) -> Seq<u8> {
    let lo = if k * w <= s.len() { k * w } else { s.len() as nat };
    let hi = if (k + 1) * w <= s.len() { (k + 1) * w } else { s.len() as nat };
    s.subrange(lo as int, hi as int)
}

/// The verdict on one window of the stored stream and one of the new stream.
pub open spec fn window_verdict(stored: Seq<u8>, new: Seq<u8>) -> WindowVerdict {
    if stored != new {
        WindowVerdict::Collision
    } else if stored.len() == 0 {
        WindowVerdict::Identical
    } else {
        WindowVerdict::Continue
    }
}

/// The verdict on the `k`-th windows of two streams.
pub open spec fn verdict_at(a: Seq<u8>, b: Seq<u8>, k: nat, w: nat) -> WindowVerdict {
    window_verdict(window(a, k, w), window(b, k, w))
}

/// Compares one window of the stored content with one of the new content.
pub fn compare_windows(stored: &[u8], new: &[u8]) -> (r: WindowVerdict)
    ensures
        r == window_verdict(stored@, new@),
{
    if !bytes_equal(stored, new) {
        WindowVerdict::Collision
    } else if stored.len() == 0 {
        WindowVerdict::Identical
    } else {
        WindowVerdict::Continue
    }
}

proof fn lemma_div_bounds(x: int, w: int)
    requires
        0 <= x,
        0 < w,
    ensures
        (x / w) * w <= x < (x / w + 1) * w,
        0 <= x / w,
{
    lemma_fundamental_div_mod(x, w);
    lemma_mod_pos_bound(x, w);
    assert((x / w + 1) * w == (x / w) * w + w) by (nonlinear_arith);
    assert(w * (x / w) == (x / w) * w) by (nonlinear_arith);
    assert(0 <= x / w) by (nonlinear_arith)
        requires
            0 <= x,
            0 < w,
    ;
}

proof fn lemma_differing_window(a: Seq<u8>, b: Seq<u8>, w: nat) -> (k: nat)
    requires
        w > 0,
        a != b,
    ensures
        window(a, k, w) != window(b, k, w),
{
    if a.len() != b.len() {
        let m = if a.len() < b.len() { a.len() } else { b.len() };
        lemma_div_bounds(m as int, w as int);
        let k = (m / w) as nat;
        assert(k * w <= m < (k + 1) * w);
        assert(window(a, k, w).len() != window(b, k, w).len());
        k
    } else {
        let i = choose|i: int| 0 <= i < a.len() && a[i] != b[i];
        if forall|j: int| 0 <= j < a.len() ==> a[j] == b[j] {
            assert(a =~= b);
        }
        let i = choose|i: int| 0 <= i < a.len() && a[i] != b[i];
        lemma_div_bounds(i, w as int);
        let k = (i / w as int) as nat;
        assert(k * w <= i < (k + 1) * w);
        assert(window(a, k, w)[i - k * w] == a[i]);
        assert(window(b, k, w)[i - k * w] == b[i]);
        k
    }
}

proof fn lemma_empty_window_stays_empty(s: Seq<u8>, j: nat, k: nat, w: nat)
    requires
        w > 0,
        j <= k,
        window(s, j, w).len() == 0,
    ensures
        window(s, k, w).len() == 0,
{
    assert(j * w <= k * w) by (nonlinear_arith)
        requires
            j <= k,
    ;
    assert((k + 1) * w == k * w + w) by (nonlinear_arith);
    assert((j + 1) * w == j * w + w) by (nonlinear_arith);
}

proof fn lemma_first_collision(a: Seq<u8>, b: Seq<u8>, w: nat, k: nat) -> (f: nat)
    requires
        w > 0,
        verdict_at(a, b, k, w) == WindowVerdict::Collision,
    ensures
        f <= k,
        verdict_at(a, b, f, w) == WindowVerdict::Collision,
        forall|j: nat| j < f ==> verdict_at(a, b, j, w) == WindowVerdict::Continue,
    decreases k,
{
    if exists|j: nat| j < k && verdict_at(a, b, j, w) != WindowVerdict::Continue {
        let j = choose|j: nat| j < k && verdict_at(a, b, j, w) != WindowVerdict::Continue;
        if verdict_at(a, b, j, w) == WindowVerdict::Identical {
            lemma_empty_window_stays_empty(a, j, k, w);
            lemma_empty_window_stays_empty(b, j, k, w);
            assert(window(a, k, w) =~= window(b, k, w));
        }
        lemma_first_collision(a, b, w, j)
    } else {
        k
    }
}

/// Comparing two contents window by window never reports a collision where
/// they are the same, and ends on a window past their end with `Identical`.
pub proof fn lemma_same_content_never_collides(a: Seq<u8>, w: nat)
    requires
        w > 0,
    ensures
        forall|k: nat| #[trigger] verdict_at(a, a, k, w) != WindowVerdict::Collision,
        verdict_at(a, a, a.len(), w) == WindowVerdict::Identical,
{
    let n = a.len() as nat;
    assert(n * w >= n && (n + 1) * w >= n) by (nonlinear_arith)
        requires
            w > 0,
    ;
    assert(window(a, n, w).len() == 0);
}

/// Comparing two different contents window by window meets a collision, and
/// every window before it agrees and holds bytes: the difference is always
/// reported, never taken for the end of the streams.
pub proof fn lemma_different_content_collides(a: Seq<u8>, b: Seq<u8>, w: nat) -> (k: nat)
    requires
        w > 0,
        a != b,
    ensures
        verdict_at(a, b, k, w) == WindowVerdict::Collision,
        forall|j: nat| j < k ==> verdict_at(a, b, j, w) == WindowVerdict::Continue,
{
    let d = lemma_differing_window(a, b, w);
    lemma_first_collision(a, b, w, d)
}

} // verus!

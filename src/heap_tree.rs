use vstd::prelude::*;

verus! {

/// The two children of an internal node.
#[derive(Debug, PartialEq, Eq)]
pub struct HeapBranch {
    left: HeapTree,
    right: HeapTree,
}

/// A decision tree whose fields are enumerated as the digits of a counter.
#[derive(Debug, PartialEq, Eq)]
pub struct HeapTree {
    feature: u32,
    threshold: u8,
    branch: Option<Box<HeapBranch>>,
}

impl HeapTree {
    /// The number of values the node's own two digits take: thresholds in
    /// `[0, tm]`, features in `[0, fm]`.
    pub closed spec fn stump_size(fm: nat, tm: nat) -> nat {
        (tm + 1) * (fm + 1)
    }

    /// The node's own digits as one number: the threshold is the lower digit.
    pub closed spec fn stump_value(self, tm: nat) -> nat {
        self.threshold as nat + (tm + 1) * self.feature as nat
    }

    /// The number of distinct trees of this shape.
    pub closed spec fn size(self, fm: nat, tm: nat) -> nat
        decreases self,
    {
        match self.branch {
            None => Self::stump_size(fm, tm),
            Some(b) => b.left.size(fm, tm) * b.right.size(fm, tm) * Self::stump_size(fm, tm),
        }
    }

    /// The tree read as a mixed-radix number: the left subtree holds the
    /// lowest digits, then the right subtree, then the node's own digits.
    pub closed spec fn value(self, fm: nat, tm: nat) -> nat
        decreases self,
    {
        match self.branch {
            None => self.stump_value(tm),
            Some(b) => b.left.value(fm, tm) + b.left.size(fm, tm) * (b.right.value(fm, tm)
                + b.right.size(fm, tm) * self.stump_value(tm)),
        }
    }

    /// The value that follows this tree's, wrapping around at `size`.
    pub closed spec fn successor_value(self, fm: nat, tm: nat) -> nat {
        ((self.value(fm, tm) + 1) as nat) % self.size(fm, tm)
    }

    /// Every feature is at most `fm` and every threshold at most `tm`.
    pub closed spec fn bounded(self, fm: nat, tm: nat) -> bool
        decreases self,
    {
        self.feature <= fm && self.threshold <= tm && match self.branch {
            None => true,
            Some(b) => b.left.bounded(fm, tm) && b.right.bounded(fm, tm),
        }
    }

    /// The two trees have the same shape.
    pub closed spec fn same_shape(self, other: HeapTree) -> bool
        decreases self,
    {
        match (self.branch, other.branch) {
            (None, None) => true,
            (Some(a), Some(b)) => a.left.same_shape(b.left) && a.right.same_shape(b.right),
            _ => false,
        }
    }

    /// Perfect of depth `d`.
    pub closed spec fn perfect_of_depth(self, d: nat) -> bool
        decreases self,
    {
        match self.branch {
            None => d == 0,
            Some(b) => d > 0 && b.left.perfect_of_depth((d - 1) as nat)
                && b.right.perfect_of_depth((d - 1) as nat),
        }
    }

    /// Every feature and threshold is zero.
    pub closed spec fn all_zero(self) -> bool
        decreases self,
    {
        self.feature == 0 && self.threshold == 0 && match self.branch {
            None => true,
            Some(b) => b.left.all_zero() && b.right.all_zero(),
        }
    }

    /// The "zero" tree of the given depth: value 0 under any bounds.
    pub fn new(depth: u8) -> (r: HeapTree)
        ensures
            r.perfect_of_depth(depth as nat),
            r.all_zero(),
        decreases depth,
    {
        if depth == 0 {
            HeapTree { feature: 0, threshold: 0, branch: None }
        } else {
            let left = HeapTree::new(depth - 1);
            let right = HeapTree::new(depth - 1);
            HeapTree { feature: 0, threshold: 0, branch: Some(Box::new(HeapBranch { left, right })) }
        }
    }

    /// A deep copy.
    pub fn copy(&self) -> (r: HeapTree)
        ensures
            r == *self,
        decreases self,
    {
        match &self.branch {
            None => HeapTree { feature: self.feature, threshold: self.threshold, branch: None },
            Some(b) => {
                let left = b.left.copy();
                let right = b.right.copy();
                HeapTree {
                    feature: self.feature,
                    threshold: self.threshold,
                    branch: Some(Box::new(HeapBranch { left, right })),
                }
            },
        }
    }

    /// The tree that follows this one in the counter order, and whether the
    /// counter wrapped around to the zero tree.
    pub fn next_tree(&self, feature_max: u32, threshold_max: u8) -> (r: (HeapTree, bool))
        ensures
            r.0.same_shape(*self),
            self.bounded(feature_max as nat, threshold_max as nat) ==> {
                &&& r.0.bounded(feature_max as nat, threshold_max as nat)
                &&& r.1 == (self.value(feature_max as nat, threshold_max as nat) + 1 == self.size(
                    feature_max as nat,
                    threshold_max as nat,
                ))
                &&& r.0.value(feature_max as nat, threshold_max as nat) == self.successor_value(
                    feature_max as nat,
                    threshold_max as nat,
                )
            },
        decreases self,
    {
        let ghost fm = feature_max as nat;
        let ghost tm = threshold_max as nat;
        proof {
            if self.bounded(fm, tm) {
                lemma_value_below_size(*self, fm, tm);
            }
        }
        match &self.branch {
            Some(b) => {
                let (new_left, wrap_left) = b.left.next_tree(feature_max, threshold_max);
                let (new_right, wrap_right) = if wrap_left {
                    b.right.next_tree(feature_max, threshold_max)
                } else {
                    proof {
                        lemma_same_shape_refl(b.right);
                        if self.bounded(fm, tm) {
                            lemma_value_below_size(b.right, fm, tm);
                        }
                    }
                    (b.right.copy(), false)
                };
                let (nf, nt, wrap) = if wrap_right {
                    next_stump(self.feature, self.threshold, feature_max, threshold_max)
                } else {
                    (self.feature, self.threshold, false)
                };
                let new_stump = HeapTree { feature: nf, threshold: nt, branch: None };
                let r = HeapTree {
                    feature: new_stump.feature,
                    threshold: new_stump.threshold,
                    branch: Some(Box::new(HeapBranch { left: new_left, right: new_right })),
                };
                proof {
                    if self.bounded(fm, tm) {
                        lemma_stump_step(self.threshold as int, self.feature as int, tm as int, fm as int);
                        lemma_same_size(new_left, b.left, fm, tm);
                        lemma_same_size(new_right, b.right, fm, tm);
                        lemma_value_below_size(b.left, fm, tm);
                        lemma_value_below_size(b.right, fm, tm);
                        lemma_size_pos(b.left, fm, tm);
                        lemma_size_pos(b.right, fm, tm);
                        lemma_carry(
                            b.left.value(fm, tm) as int,
                            b.left.size(fm, tm) as int,
                            b.right.value(fm, tm) as int,
                            b.right.size(fm, tm) as int,
                            self.stump_value(tm) as int,
                            HeapTree::stump_size(fm, tm) as int,
                            wrap_left,
                            wrap_right,
                            wrap,
                            new_left.value(fm, tm) as int,
                            new_right.value(fm, tm) as int,
                            new_stump.stump_value(tm) as int,
                        );
                    }
                }
                (r, wrap)
            },
            None => {
                let (feature, threshold, wrap) = next_stump(
                    self.feature,
                    self.threshold,
                    feature_max,
                    threshold_max,
                );
                (HeapTree { feature, threshold, branch: None }, wrap)
            },
        }
    }

    /// `r` is this tree advanced `n` steps in the counter order, and `carry`
    /// the number of times the counter wrapped around on the way.
    pub closed spec fn add_result(self, n: nat, fm: nat, tm: nat, r: HeapTree, carry: nat) -> bool {
        &&& r.bounded(fm, tm)
        &&& r.same_shape(self)
        &&& r.value(fm, tm) == (self.value(fm, tm) + n) as nat % self.size(fm, tm)
        &&& carry == (self.value(fm, tm) + n) as nat / self.size(fm, tm)
    }

    /// Advances the tree `n` steps in the counter order, returning the new
    /// tree and the number of wrap-arounds.
    pub fn add(&self, n: u64, feature_max: u32, threshold_max: u8) -> (r: (HeapTree, u64))
        requires
            self.bounded(feature_max as nat, threshold_max as nat),
        ensures
            self.add_result(n as nat, feature_max as nat, threshold_max as nat, r.0, r.1 as nat),
    {
        let ghost fm = feature_max as nat;
        let ghost tm = threshold_max as nat;
        let ghost v0 = self.value(fm, tm);
        let ghost sz = self.size(fm, tm);
        proof {
            lemma_value_below_size(*self, fm, tm);
            lemma_same_shape_refl(*self);
            vstd::arithmetic::div_mod::lemma_small_mod(v0, sz);
            vstd::arithmetic::div_mod::lemma_basic_div(v0 as int, sz as int);
        }
        let mut cur = self.copy();
        let mut carries: u64 = 0;
        let mut i: u64 = 0;
        while i < n
            invariant
                i <= n,
                carries <= i,
                sz > 0,
                self.bounded(fm, tm),
                fm == feature_max as nat,
                tm == threshold_max as nat,
                v0 == self.value(fm, tm),
                sz == self.size(fm, tm),
                cur.bounded(fm, tm),
                cur.same_shape(*self),
                cur.value(fm, tm) == (v0 + i) as nat % sz,
                carries == (v0 + i) as nat / sz,
            decreases n - i,
        {
            proof {
                lemma_same_size(cur, *self, fm, tm);
                lemma_step((v0 + i) as int, sz as int);
                let m = (v0 + i) as int % (sz as int);
                vstd::arithmetic::div_mod::lemma_mod_bound((v0 + i) as int, sz as int);
                if m + 1 == sz {
                    vstd::arithmetic::div_mod::lemma_mod_self_0(sz as int);
                } else {
                    vstd::arithmetic::div_mod::lemma_small_mod((m + 1) as nat, sz);
                }
            }
            let (next, wrapped) = cur.next_tree(feature_max, threshold_max);
            proof {
                lemma_same_shape_trans(next, cur, *self);
            }
            cur = next;
            if wrapped {
                carries = carries + 1;
            }
            i = i + 1;
        }
        (cur, carries)
    }
}

/// One step of a node's own two digits: the threshold first, then the feature.
fn next_stump(feature: u32, threshold: u8, feature_max: u32, threshold_max: u8) -> (r: (
    u32,
    u8,
    bool,
))
    ensures
        feature <= feature_max && threshold <= threshold_max ==> {
            &&& r.0 <= feature_max
            &&& r.1 <= threshold_max
            &&& r.2 == (stump_val(threshold as int, feature as int, threshold_max as int) + 1
                == stump_sz(feature_max as int, threshold_max as int))
            &&& stump_val(r.1 as int, r.0 as int, threshold_max as int) == (stump_val(
                threshold as int,
                feature as int,
                threshold_max as int,
            ) + 1) % stump_sz(feature_max as int, threshold_max as int)
        },
{
    let ghost (th, f, tm, fm) = (threshold as int, feature as int, threshold_max as int, feature_max as int);
    proof {
        if feature <= feature_max && threshold <= threshold_max {
            lemma_stump_step(th, f, tm, fm);
            let v = stump_val(th, f, tm);
            let s = stump_sz(fm, tm);
            if v + 1 < s {
                vstd::arithmetic::div_mod::lemma_small_mod((v + 1) as nat, s as nat);
            } else {
                vstd::arithmetic::div_mod::lemma_mod_self_0(s);
            }
        }
    }
    if threshold < threshold_max {
        (feature, threshold + 1, false)
    } else if feature < feature_max {
        (feature + 1, 0, false)
    } else {
        (0, 0, true)
    }
}

pub open spec fn stump_val(th: int, f: int, tm: int) -> int {
    th + (tm + 1) * f
}

pub open spec fn stump_sz(fm: int, tm: int) -> int {
    (tm + 1) * (fm + 1)
}

proof fn lemma_stump_step(th: int, f: int, tm: int, fm: int)
    requires
        0 <= th <= tm,
        0 <= f <= fm,
    ensures
        stump_sz(fm, tm) > 0,
        0 <= stump_val(th, f, tm) < stump_sz(fm, tm),
        th < tm ==> (th + 1) + (tm + 1) * f == stump_val(th, f, tm) + 1,
        th == tm && f < fm ==> 0 + (tm + 1) * (f + 1) == stump_val(th, f, tm) + 1,
        (stump_val(th, f, tm) + 1 == stump_sz(fm, tm)) == (th == tm && f == fm),
        th == tm && f == fm ==> 0 + (tm + 1) * 0 == 0,
{
    let v = stump_val(th, f, tm);
    let s = stump_sz(fm, tm);
    assert(s > 0 && 0 <= v && v + 1 <= s) by (nonlinear_arith)
        requires
            v == th + (tm + 1) * f,
            s == (tm + 1) * (fm + 1),
            0 <= th <= tm,
            0 <= f <= fm,
    ;
    assert((v + 1 == s) == (th == tm && f == fm)) by (nonlinear_arith)
        requires
            v == th + (tm + 1) * f,
            s == (tm + 1) * (fm + 1),
            0 <= th <= tm,
            0 <= f <= fm,
    ;
    assert((tm + 1) * (f + 1) == (tm + 1) * f + tm + 1) by (nonlinear_arith);
}

/// The zero tree is within any bounds and has value 0.
pub proof fn lemma_zero_tree(t: HeapTree, fm: nat, tm: nat)
    requires
        t.all_zero(),
    ensures
        t.bounded(fm, tm),
        t.value(fm, tm) == 0,
    decreases t,
{
    assert(t.stump_value(tm) == 0) by (nonlinear_arith)
        requires
            t.feature == 0,
            t.threshold == 0,
    ;
    if let Some(b) = t.branch {
        lemma_zero_tree(b.left, fm, tm);
        lemma_zero_tree(b.right, fm, tm);
        let (sl, sr) = (b.left.size(fm, tm) as int, b.right.size(fm, tm) as int);
        assert(0 + sl * (0 + sr * 0) == 0) by (nonlinear_arith);
    }
}

/// The result of `add` is within the bounds, has the input's shape, and can
/// itself be advanced again.
pub proof fn lemma_add_result_bounded(t: HeapTree, n: nat, fm: nat, tm: nat, r: HeapTree, c: nat)
    requires
        t.add_result(n, fm, tm, r, c),
    ensures
        r.bounded(fm, tm),
        r.same_shape(t),
        r.size(fm, tm) == t.size(fm, tm),
{
    lemma_same_size(r, t, fm, tm);
}

pub proof fn lemma_same_shape_refl(t: HeapTree)
    ensures
        t.same_shape(t),
    decreases t,
{
    if let Some(b) = t.branch {
        lemma_same_shape_refl(b.left);
        lemma_same_shape_refl(b.right);
    }
}

/// Trees of the same shape have the same number of values.
pub proof fn lemma_same_size(a: HeapTree, b: HeapTree, fm: nat, tm: nat)
    requires
        a.same_shape(b),
    ensures
        a.size(fm, tm) == b.size(fm, tm),
    decreases a,
{
    if let (Some(x), Some(y)) = (a.branch, b.branch) {
        lemma_same_size(x.left, y.left, fm, tm);
        lemma_same_size(x.right, y.right, fm, tm);
    }
}

pub proof fn lemma_size_pos(t: HeapTree, fm: nat, tm: nat)
    ensures
        t.size(fm, tm) > 0,
    decreases t,
{
    let s = HeapTree::stump_size(fm, tm);
    assert(s > 0) by (nonlinear_arith)
        requires
            s == (tm + 1) * (fm + 1),
    ;
    if let Some(b) = t.branch {
        lemma_size_pos(b.left, fm, tm);
        lemma_size_pos(b.right, fm, tm);
        let (x, y) = (b.left.size(fm, tm), b.right.size(fm, tm));
        assert(x * y * s > 0) by (nonlinear_arith)
            requires
                x > 0,
                y > 0,
                s > 0,
        ;
    }
}

/// A bounded tree's value is below its size.
pub proof fn lemma_value_below_size(t: HeapTree, fm: nat, tm: nat)
    requires
        t.bounded(fm, tm),
    ensures
        t.value(fm, tm) < t.size(fm, tm),
    decreases t,
{
    let (th, f) = (t.threshold as int, t.feature as int);
    let (vs, ss) = (t.stump_value(tm) as int, HeapTree::stump_size(fm, tm) as int);
    assert(vs < ss) by (nonlinear_arith)
        requires
            vs == th + (tm + 1) * f,
            ss == (tm + 1) * (fm + 1),
            0 <= th <= tm,
            0 <= f <= fm,
    ;
    if let Some(b) = t.branch {
        lemma_value_below_size(b.left, fm, tm);
        lemma_value_below_size(b.right, fm, tm);
        let (vl, sl, vr, sr) = (
            b.left.value(fm, tm) as int,
            b.left.size(fm, tm) as int,
            b.right.value(fm, tm) as int,
            b.right.size(fm, tm) as int,
        );
        assert(vr + sr * vs + 1 <= sr * ss) by (nonlinear_arith)
            requires
                0 <= vr < sr,
                0 <= vs < ss,
        ;
        assert(vl + sl * (vr + sr * vs) < sl * sr * ss) by (nonlinear_arith)
            requires
                0 <= vl < sl,
                vr + sr * vs + 1 <= sr * ss,
                0 <= vr,
                0 <= vs,
                0 <= sr,
        ;
    }
}

/// The carry step of the counter at an internal node.
proof fn lemma_carry(
    vl: int,
    sl: int,
    vr: int,
    sr: int,
    vs: int,
    ss: int,
    wl: bool,
    wr: bool,
    w: bool,
    nl: int,
    nr: int,
    ns: int,
)
    requires
        0 <= vl < sl,
        0 <= vr < sr,
        0 <= vs < ss,
        wl == (vl + 1 == sl),
        nl == (vl + 1) % sl,
        wl ==> (wr == (vr + 1 == sr) && nr == (vr + 1) % sr),
        !wl ==> (!wr && nr == vr),
        wr ==> (w == (vs + 1 == ss) && ns == (vs + 1) % ss),
        !wr ==> (!w && ns == vs),
    ensures
        w == (vl + sl * (vr + sr * vs) + 1 == sl * sr * ss),
        nl + sl * (nr + sr * ns) == (vl + sl * (vr + sr * vs) + 1) % (sl * sr * ss),
{
    let v = vl + sl * (vr + sr * vs);
    let s = sl * sr * ss;
    assert(vr + sr * vs + 1 <= sr * ss) by (nonlinear_arith)
        requires
            0 <= vr < sr,
            0 <= vs < ss,
    ;
    assert(0 <= v && v + 1 <= s) by (nonlinear_arith)
        requires
            v == vl + sl * (vr + sr * vs),
            s == sl * sr * ss,
            0 <= vl < sl,
            vr + sr * vs + 1 <= sr * ss,
            0 <= vr,
            0 <= vs,
            0 <= sr,
    ;
    if !wl {
        vstd::arithmetic::div_mod::lemma_small_mod((vl + 1) as nat, sl as nat);
        assert(v + 1 < s) by (nonlinear_arith)
            requires
                v == vl + sl * (vr + sr * vs),
                s == sl * sr * ss,
                0 <= vl,
                vl + 1 < sl,
                vr + sr * vs + 1 <= sr * ss,
        ;
        vstd::arithmetic::div_mod::lemma_small_mod((v + 1) as nat, s as nat);
    } else {
        vstd::arithmetic::div_mod::lemma_mod_self_0(sl);
        if !wr {
            vstd::arithmetic::div_mod::lemma_small_mod((vr + 1) as nat, sr as nat);
            assert(sl * (vr + 1 + sr * vs) == v + 1) by (nonlinear_arith)
                requires
                    v == vl + sl * (vr + sr * vs),
                    vl + 1 == sl,
            ;
            assert(vr + 1 + sr * vs < sr * ss) by (nonlinear_arith)
                requires
                    0 <= vr,
                    vr + 1 < sr,
                    0 <= vs < ss,
            ;
            assert(v + 1 < s) by (nonlinear_arith)
                requires
                    sl * (vr + 1 + sr * vs) == v + 1,
                    s == sl * sr * ss,
                    vr + 1 + sr * vs < sr * ss,
                    sl > 0,
            ;
            vstd::arithmetic::div_mod::lemma_small_mod((v + 1) as nat, s as nat);
        } else {
            vstd::arithmetic::div_mod::lemma_mod_self_0(sr);
            assert(sl * (sr * (vs + 1)) == v + 1) by (nonlinear_arith)
                requires
                    v == vl + sl * (vr + sr * vs),
                    vl + 1 == sl,
                    vr + 1 == sr,
            ;
            if !w {
                vstd::arithmetic::div_mod::lemma_small_mod((vs + 1) as nat, ss as nat);
                assert(v + 1 < s) by (nonlinear_arith)
                    requires
                        sl * (sr * (vs + 1)) == v + 1,
                        s == sl * sr * ss,
                        vs + 1 < ss,
                        sl > 0,
                        sr > 0,
                ;
                assert(sl * (0 + sr * (vs + 1)) == v + 1);
                vstd::arithmetic::div_mod::lemma_small_mod((v + 1) as nat, s as nat);
            } else {
                vstd::arithmetic::div_mod::lemma_mod_self_0(ss);
                assert(v + 1 == s) by (nonlinear_arith)
                    requires
                        sl * (sr * (vs + 1)) == v + 1,
                        s == sl * sr * ss,
                        vs + 1 == ss,
                ;
                vstd::arithmetic::div_mod::lemma_mod_self_0(s);
                assert(0 + sl * (0 + sr * 0) == 0) by (nonlinear_arith);
            }
        }
    }
}

proof fn lemma_step(x: int, s: int)
    requires
        x >= 0,
        s > 0,
    ensures
        x % s + 1 == s ==> (x + 1) % s == 0 && (x + 1) / s == x / s + 1,
        x % s + 1 != s ==> (x + 1) % s == x % s + 1 && (x + 1) / s == x / s,
{
    vstd::arithmetic::div_mod::lemma_fundamental_div_mod(x, s);
    let (q, m) = (x / s, x % s);
    assert(0 <= m < s) by {
        vstd::arithmetic::div_mod::lemma_mod_bound(x, s);
    }
    if m + 1 == s {
        assert(x + 1 == (q + 1) * s + 0) by (nonlinear_arith)
            requires
                x == s * q + m,
                m + 1 == s,
        ;
        vstd::arithmetic::div_mod::lemma_fundamental_div_mod_converse(x + 1, s, q + 1, 0);
    } else {
        assert(x + 1 == q * s + (m + 1)) by (nonlinear_arith)
            requires
                x == s * q + m,
        ;
        vstd::arithmetic::div_mod::lemma_fundamental_div_mod_converse(x + 1, s, q, m + 1);
    }
}

pub proof fn lemma_same_shape_trans(a: HeapTree, b: HeapTree, c: HeapTree)
    requires
        a.same_shape(b),
        b.same_shape(c),
    ensures
        a.same_shape(c),
    decreases a,
{
    match (a.branch, b.branch, c.branch) {
        (Some(x), Some(y), Some(z)) => {
            lemma_same_shape_trans(x.left, y.left, z.left);
            lemma_same_shape_trans(x.right, y.right, z.right);
        },
        _ => {},
    }
}

pub proof fn lemma_same_shape_sym(a: HeapTree, b: HeapTree)
    requires
        a.same_shape(b),
    ensures
        b.same_shape(a),
    decreases a,
{
    if let (Some(x), Some(y)) = (a.branch, b.branch) {
        lemma_same_shape_sym(x.left, y.left);
        lemma_same_shape_sym(x.right, y.right);
    }
}

/// `x == q * d + r` with `0 <= r < d` fixes `q` and `r`.
proof fn lemma_digits_unique(q1: int, r1: int, q2: int, r2: int, d: int)
    requires
        d > 0,
        0 <= r1 < d,
        0 <= r2 < d,
        q1 * d + r1 == q2 * d + r2,
    ensures
        q1 == q2,
        r1 == r2,
{
    let x = q1 * d + r1;
    vstd::arithmetic::div_mod::lemma_fundamental_div_mod_converse(x, d, q1, r1);
    vstd::arithmetic::div_mod::lemma_fundamental_div_mod_converse(x, d, q2, r2);
}

/// Two bounded trees of the same shape with the same value are equal.
pub proof fn lemma_value_injective(a: HeapTree, b: HeapTree, fm: nat, tm: nat)
    requires
        a.same_shape(b),
        a.bounded(fm, tm),
        b.bounded(fm, tm),
        a.value(fm, tm) == b.value(fm, tm),
    ensures
        a == b,
    decreases a,
{
    let t = tm + 1;
    match (a.branch, b.branch) {
        (None, None) => {
            assert(a.feature * t + a.threshold == b.feature * t + b.threshold) by (nonlinear_arith)
                requires
                    a.threshold + t * a.feature == b.threshold + t * b.feature,
            ;
            lemma_digits_unique(a.feature as int, a.threshold as int, b.feature as int, b.threshold as int, t as int);
        },
        (Some(x), Some(y)) => {
            lemma_same_size(x.left, y.left, fm, tm);
            lemma_same_size(x.right, y.right, fm, tm);
            lemma_value_below_size(x.left, fm, tm);
            lemma_value_below_size(y.left, fm, tm);
            lemma_value_below_size(x.right, fm, tm);
            lemma_value_below_size(y.right, fm, tm);
            let sl = x.left.size(fm, tm) as int;
            let sr = x.right.size(fm, tm) as int;
            let ha = x.right.value(fm, tm) + sr * a.stump_value(tm);
            let hb = y.right.value(fm, tm) + sr * b.stump_value(tm);
            assert(ha * sl + x.left.value(fm, tm) == hb * sl + y.left.value(fm, tm)) by (nonlinear_arith)
                requires
                    x.left.value(fm, tm) + sl * ha == y.left.value(fm, tm) + sl * hb,
            ;
            lemma_digits_unique(ha, x.left.value(fm, tm) as int, hb, y.left.value(fm, tm) as int, sl);
            assert(a.stump_value(tm) * sr + x.right.value(fm, tm) == b.stump_value(tm) * sr
                + y.right.value(fm, tm)) by (nonlinear_arith)
                requires
                    ha == hb,
                    ha == x.right.value(fm, tm) + sr * a.stump_value(tm),
                    hb == y.right.value(fm, tm) + sr * b.stump_value(tm),
            ;
            lemma_digits_unique(
                a.stump_value(tm) as int,
                x.right.value(fm, tm) as int,
                b.stump_value(tm) as int,
                y.right.value(fm, tm) as int,
                sr,
            );
            assert(a.feature * t + a.threshold == b.feature * t + b.threshold) by (nonlinear_arith)
                requires
                    a.threshold + t * a.feature == b.threshold + t * b.feature,
            ;
            lemma_digits_unique(a.feature as int, a.threshold as int, b.feature as int, b.threshold as int, t as int);
            lemma_value_injective(x.left, y.left, fm, tm);
            lemma_value_injective(x.right, y.right, fm, tm);
            assert(x == y);
        },
        _ => {},
    }
}

/// Adding `n1` and then `n2` gives the tree that adding `n1 + n2` gives, and
/// the wrap-arounds of the two steps add up to those of the single one.
pub proof fn lemma_add_composes(
    t: HeapTree,
    n1: nat,
    n2: nat,
    fm: nat,
    tm: nat,
    r1: HeapTree,
    c1: nat,
    r2: HeapTree,
    c2: nat,
    r3: HeapTree,
    c3: nat,
)
    requires
        t.bounded(fm, tm),
        t.add_result(n1, fm, tm, r1, c1),
        r1.add_result(n2, fm, tm, r2, c2),
        t.add_result(n1 + n2, fm, tm, r3, c3),
    ensures
        r2 == r3,
        c1 + c2 == c3,
{
    let s = t.size(fm, tm) as int;
    lemma_size_pos(t, fm, tm);
    lemma_same_size(r1, t, fm, tm);
    let v = t.value(fm, tm) as int;
    let x = v + n1;
    vstd::arithmetic::div_mod::lemma_fundamental_div_mod(x, s);
    vstd::arithmetic::div_mod::lemma_mod_bound(x, s);
    let m = x % s;
    let y = m + n2;
    vstd::arithmetic::div_mod::lemma_fundamental_div_mod(y, s);
    vstd::arithmetic::div_mod::lemma_mod_bound(y, s);
    assert(v + n1 + n2 == (x / s + y / s) * s + y % s) by (nonlinear_arith)
        requires
            x == s * (x / s) + m,
            y == s * (y / s) + y % s,
            x == v + n1,
            y == m + n2,
    ;
    vstd::arithmetic::div_mod::lemma_fundamental_div_mod_converse(v + n1 + n2, s, x / s + y / s, y % s);
    lemma_same_shape_trans(r2, r1, t);
    lemma_same_shape_sym(r3, t);
    lemma_same_shape_trans(r2, t, r3);
    lemma_value_injective(r2, r3, fm, tm);
}

/// Adding the number of distinct trees of a shape returns the tree itself,
/// with exactly one wrap-around.
pub proof fn lemma_add_full_cycle(t: HeapTree, fm: nat, tm: nat, r: HeapTree, c: nat)
    requires
        t.bounded(fm, tm),
        t.add_result(t.size(fm, tm), fm, tm, r, c),
    ensures
        r == t,
        c == 1,
{
    let s = t.size(fm, tm) as int;
    let v = t.value(fm, tm) as int;
    lemma_value_below_size(t, fm, tm);
    assert(v + s == 1 * s + v);
    vstd::arithmetic::div_mod::lemma_fundamental_div_mod_converse(v + s, s, 1, v);
    lemma_same_shape_refl(t);
    lemma_value_injective(r, t, fm, tm);
}

} // verus!

use vstd::prelude::*;

use crate::cidr::{Cidr, canonical_text, lemma_prefix_children, lemma_prefix_trans, padded};

verus! {

/// Number of addresses in a block with `k` free bits, that is 2^k.
pub open spec fn block(k: nat) -> nat
    decreases k,
{
    if k == 0 {
        1
    } else {
        2 * block((k - 1) as nat)
    }
}

/// Number of addresses that a prefix of `len` bits stands for.
pub open spec fn span(len: nat) -> nat {
    block((32 - len) as nat)
}

/// A full IPv4 address, as 32 bits.
pub open spec fn is_address(a: Seq<bool>) -> bool {
    a.len() == 32
}

pub proof fn lemma_block_bounds(k: nat)
    requires
        k <= 32,
    ensures
        1 <= block(k) <= block(32),
        block(32) == 4294967296,
    decreases 32 - k,
{
    reveal_with_fuel(block, 33);
    if k < 32 {
        lemma_block_bounds(k + 1);
    }
}

pub proof fn lemma_block_le(a: nat, b: nat)
    requires
        a <= b,
    ensures
        block(a) <= block(b),
    decreases b,
{
    if a < b {
        lemma_block_le(a, (b - 1) as nat);
    }
}

/// A block of `len` bits splits into two blocks of `len + 1` bits.
pub proof fn lemma_span_split(len: nat)
    requires
        len < 32,
    ensures
        span(len) == 2 * span(len + 1),
        1 <= span(len + 1),
        span(len) <= 4294967296,
{
    lemma_block_bounds((32 - len) as nat);
    lemma_block_bounds((32 - len - 1) as nat);
}

/// Computes `span(len)`.
fn block_size(len: usize) -> (r: u64)
    requires
        len <= 32,
    ensures
        r == span(len as nat),
{
    let mut r: u64 = 1;
    let mut k: usize = 32;
    while k > len
        invariant
            len <= k <= 32,
            r == span(k as nat),
        decreases k,
    {
        proof {
            lemma_span_split((k - 1) as nat);
        }
        r = r * 2;
        k = k - 1;
    }
    r
}

/// The prefixes that a list of `Cidr` values hold.
pub open spec fn prefixes(v: Seq<Cidr>) -> Seq<Seq<bool>> {
    v.map_values(|c: Cidr| c@)
}

/// A prefix's bits as `0` and `1` characters.
pub open spec fn bit_text(p: Seq<bool>) -> Seq<char> {
    p.map_values(|b: bool| if b { '1' } else { '0' })
}

/// A line of the tree listing: the path of bits, a space, then the canonical text.
pub open spec fn tree_line(p: Seq<bool>) -> Seq<char> {
    bit_text(p) + seq![' '] + canonical_text(p)
}

/// The cheapest place found in a subtree to collapse a whole block into one entry.
#[derive(Debug)]
pub struct MergeCandidate {
    /// Addresses that collapsing would take in without having been asked for.
    pub cost: u64,
    /// Entries that the block contributes now.
    pub cidrs: u64,
    /// The block to collapse.
    pub cidr: Cidr,
}

impl MergeCandidate {
    pub open spec fn view(&self) -> (nat, nat, Seq<bool>) {
        (self.cost as nat, self.cidrs as nat, self.cidr@)
    }
}

impl Clone for MergeCandidate {
    fn clone(&self) -> (r: Self)
        ensures
            r.view() == self.view(),
    {
        MergeCandidate { cost: self.cost, cidrs: self.cidrs, cidr: self.cidr.clone() }
    }
}

/// Of two candidates, the second one only where it is strictly cheaper.
pub open spec fn pick(
    a: Option<(nat, nat, Seq<bool>)>,
    b: Option<(nat, nat, Seq<bool>)>,
) -> Option<(nat, nat, Seq<bool>)> {
    match b {
        Some(y) => match a {
            Some(x) => if y.0 < x.0 {
                b
            } else {
                a
            },
            None => b,
        },
        None => a,
    }
}

/// A node of the binary trie over address bits; it stands for the prefix `cidr`.
#[derive(Debug)]
pub struct Tree {
    /// The whole block of this node belongs to the output.
    pub present: bool,
    /// Nodes in this subtree, this one included.
    pub node_count: u64,
    /// Output entries in this subtree.
    pub cidr_count: u64,
    /// Addresses of this node's block that the output covers.
    pub coverage: u64,
    pub cidr: Cidr,
    /// The child for a next bit of 0.
    pub left: Option<Box<Tree>>,
    /// The child for a next bit of 1.
    pub right: Option<Box<Tree>>,
    pub best_coverage: Option<MergeCandidate>,
}

pub open spec fn count_of(t: Option<Box<Tree>>) -> nat {
    match t {
        Some(c) => c.cidr_count as nat,
        None => 0,
    }
}

pub open spec fn nodes_of(t: Option<Box<Tree>>) -> nat {
    match t {
        Some(c) => c.node_count as nat,
        None => 0,
    }
}

pub open spec fn coverage_of(t: Option<Box<Tree>>) -> nat {
    match t {
        Some(c) => c.coverage as nat,
        None => 0,
    }
}

pub open spec fn best_of(t: Option<Box<Tree>>) -> Option<(nat, nat, Seq<bool>)> {
    match t {
        Some(c) => c.best_view(),
        None => None,
    }
}

pub open spec fn outputs_of(t: Option<Box<Tree>>) -> Seq<Seq<bool>> {
    match t {
        Some(c) => c.output_list(),
        None => Seq::empty(),
    }
}

pub open spec fn is_present(t: Option<Box<Tree>>) -> bool {
    match t {
        Some(c) => c.present,
        None => false,
    }
}

impl Tree {
    pub open spec fn depth(&self) -> nat {
        self.cidr@.len()
    }

    pub open spec fn best_view(&self) -> Option<(nat, nat, Seq<bool>)> {
        match self.best_coverage {
            Some(c) => Some(c.view()),
            None => None,
        }
    }

    /// Collapsing this node: the addresses of its block not yet covered.
    pub open spec fn own_candidate(&self) -> (nat, nat, Seq<bool>) {
        ((span(self.depth()) - self.coverage) as nat, self.cidr_count as nat, self.cidr@)
    }

    /// The cheapest of collapsing this node and the children's own best candidates,
    /// an earlier one winning a tie (this node, then the left, then the right).
    pub open spec fn chosen_best(&self) -> Option<(nat, nat, Seq<bool>)> {
        if self.present {
            None
        } else {
            pick(pick(Some(self.own_candidate()), best_of(self.left)), best_of(self.right))
        }
    }

    /// What each node stores agrees with its children, and the block of a node
    /// that is not present is never fully covered.
    pub open spec fn wf(&self) -> bool
        decreases self, 0nat,
    {
        &&& self.depth() <= 32
        &&& self.present ==> self.left is None && self.right is None
        &&& match self.left {
            Some(c) => c.child_of(self.cidr@.push(false)),
            None => true,
        }
        &&& match self.right {
            Some(c) => c.child_of(self.cidr@.push(true)),
            None => true,
        }
        &&& self.cidr_count == if self.present {
            1
        } else {
            count_of(self.left) + count_of(self.right)
        }
        &&& self.node_count == 1 + nodes_of(self.left) + nodes_of(self.right)
        &&& self.coverage == if self.present {
            span(self.depth())
        } else {
            coverage_of(self.left) + coverage_of(self.right)
        }
        &&& !self.present ==> self.coverage < span(self.depth())
        &&& self.node_count < 2 * span(self.depth())
        &&& self.cidr_count <= span(self.depth())
        &&& self.best_view() == self.chosen_best()
    }

    /// A well-formed child node for the prefix `p`, holding at least one entry.
    pub open spec fn child_of(&self, p: Seq<bool>) -> bool
        decreases self, 1nat,
    {
        self.cidr@ == p && self.cidr_count >= 1 && self.wf()
    }

    /// The address `a` lies in the block of a present node.
    pub open spec fn covers(&self, a: Seq<bool>) -> bool
        decreases self,
    {
        if self.present {
            self.cidr@.is_prefix_of(a)
        } else {
            (match self.left {
                Some(c) => c.covers(a),
                None => false,
            }) || (match self.right {
                Some(c) => c.covers(a),
                None => false,
            })
        }
    }

    /// The node for `p`, or one of its ancestors, is present: inserting `p` changes nothing.
    pub open spec fn absorbs(&self, p: Seq<bool>) -> bool
        decreases self,
    {
        if self.present {
            true
        } else if self.depth() >= p.len() {
            false
        } else if p[self.depth() as int] {
            match self.right {
                Some(c) => c.absorbs(p),
                None => false,
            }
        } else {
            match self.left {
                Some(c) => c.absorbs(p),
                None => false,
            }
        }
    }

    /// Addresses of the block of `p` that the output covers.
    pub open spec fn covered_within(&self, p: Seq<bool>) -> nat
        decreases self,
    {
        if self.present {
            span(p.len())
        } else if self.depth() >= p.len() {
            self.coverage as nat
        } else if p[self.depth() as int] {
            match self.right {
                Some(c) => c.covered_within(p),
                None => 0,
            }
        } else {
            match self.left {
                Some(c) => c.covered_within(p),
                None => 0,
            }
        }
    }

    /// Collapsing `p` takes at least one entry away: the node for `p` exists
    /// and holds an entry, or `p` is absorbed.
    pub open spec fn merge_ok(&self, p: Seq<bool>) -> bool
        decreases self,
    {
        if self.present {
            true
        } else if self.depth() >= p.len() {
            self.cidr_count >= 1
        } else if p[self.depth() as int] {
            match self.right {
                Some(c) => c.merge_ok(p),
                None => false,
            }
        } else {
            match self.left {
                Some(c) => c.merge_ok(p),
                None => false,
            }
        }
    }

    /// Only addresses inside this node's block can be covered by its subtree.
    pub proof fn lemma_covers_inside(&self, a: Seq<bool>)
        requires
            self.wf(),
            self.covers(a),
        ensures
            self.cidr@.is_prefix_of(a),
        decreases self,
    {
        if !self.present {
            match self.left {
                Some(c) => if c.covers(a) {
                    c.lemma_covers_inside(a);
                    lemma_prefix_trans(self.cidr@, c.cidr@, a);
                },
                None => {},
            }
            match self.right {
                Some(c) => if c.covers(a) {
                    c.lemma_covers_inside(a);
                    lemma_prefix_trans(self.cidr@, c.cidr@, a);
                },
                None => {},
            }
        }
    }


    /// The present prefixes of this subtree in address order.
    pub open spec fn output_list(&self) -> Seq<Seq<bool>>
        decreases self,
    {
        if self.present {
            seq![self.cidr@]
        } else {
            (match self.left {
                Some(c) => c.output_list(),
                None => Seq::empty(),
            }) + (match self.right {
                Some(c) => c.output_list(),
                None => Seq::empty(),
            })
        }
    }

    /// One output entry per present node, and each a prefix of at most 32 bits.
    pub proof fn lemma_output_list(&self)
        requires
            self.wf(),
        ensures
            self.output_list().len() == self.cidr_count,
            forall|i: int|
                0 <= i < self.output_list().len() ==> (#[trigger] self.output_list()[i]).len()
                    <= 32,
        decreases self,
    {
        if !self.present {
            match self.left {
                Some(c) => c.lemma_output_list(),
                None => {},
            }
            match self.right {
                Some(c) => c.lemma_output_list(),
                None => {},
            }
            let l = outputs_of(self.left);
            let r = outputs_of(self.right);
            assert forall|i: int| 0 <= i < self.output_list().len() implies (
            #[trigger] self.output_list()[i]).len() <= 32 by {
                if i < l.len() {
                    assert(self.output_list()[i] == l[i]);
                } else {
                    assert(self.output_list()[i] == r[i - l.len()]);
                }
            }
        }
    }

    fn collect_outputs(&self, out: &mut Vec<Cidr>)
        requires
            self.wf(),
        ensures
            prefixes(final(out)@) == prefixes(old(out)@) + self.output_list(),
        decreases self,
    {
        if self.present {
            let ghost before = out@;
            out.push(self.cidr.clone());
            assert(prefixes(out@) =~= prefixes(before) + self.output_list());
            return ;
        }
        let ghost start = out@;
        match &self.left {
            Some(c) => c.collect_outputs(out),
            None => {},
        }
        let ghost mid = out@;
        match &self.right {
            Some(c) => c.collect_outputs(out),
            None => {},
        }
        proof {
            let l = outputs_of(self.left);
            let r = outputs_of(self.right);
            assert(prefixes(mid) =~= prefixes(start) + l);
            assert(prefixes(out@) =~= prefixes(mid) + r);
            assert(prefixes(out@) =~= prefixes(start) + self.output_list());
        }
    }

    /// The present prefixes, in address order: the output set.
    pub fn outputs(&self) -> (r: Vec<Cidr>)
        requires
            self.wf(),
        ensures
            prefixes(r@) == self.output_list(),
            r@.len() == self.cidr_count,
    {
        let mut r: Vec<Cidr> = Vec::new();
        self.collect_outputs(&mut r);
        assert(prefixes(r@) =~= self.output_list());
        proof {
            self.lemma_output_list();
        }
        r
    }

    /// The output set as canonical text, one line per prefix, in address order.
    pub fn print(&self) -> (lines: Vec<String>)
        requires
            self.wf(),
        ensures
            lines@.len() == self.output_list().len(),
            forall|i: int|
                0 <= i < lines@.len() ==> #[trigger] lines@[i]@ == canonical_text(
                    self.output_list()[i],
                ),
    {
        let outs = self.outputs();
        proof {
            self.lemma_output_list();
        }
        let mut lines: Vec<String> = Vec::new();
        let mut i: usize = 0;
        while i < outs.len()
            invariant
                prefixes(outs@) == self.output_list(),
                forall|j: int|
                    0 <= j < self.output_list().len() ==> (#[trigger] self.output_list()[j]).len()
                        <= 32,
                i <= outs@.len(),
                lines@.len() == i,
                forall|j: int|
                    0 <= j < i ==> #[trigger] lines@[j]@ == canonical_text(self.output_list()[j]),
            decreases outs@.len() - i,
        {
            assert(outs@[i as int]@ == self.output_list()[i as int]);
            lines.push(outs[i].to_pretty_string());
            i = i + 1;
        }
        lines
    }

    /// The output set with the trie's shape: each line is a present prefix's
    /// path of bits, a space, and its canonical text, in address order.
    pub fn print_tree(&self) -> (lines: Vec<String>)
        requires
            self.wf(),
        ensures
            lines@.len() == self.output_list().len(),
            forall|i: int|
                0 <= i < lines@.len() ==> #[trigger] lines@[i]@ == tree_line(
                    self.output_list()[i],
                ),
    {
        let outs = self.outputs();
        proof {
            self.lemma_output_list();
        }
        let mut lines: Vec<String> = Vec::new();
        let mut i: usize = 0;
        while i < outs.len()
            invariant
                prefixes(outs@) == self.output_list(),
                forall|j: int|
                    0 <= j < self.output_list().len() ==> (#[trigger] self.output_list()[j]).len()
                        <= 32,
                i <= outs@.len(),
                lines@.len() == i,
                forall|j: int|
                    0 <= j < i ==> #[trigger] lines@[j]@ == tree_line(self.output_list()[j]),
            decreases outs@.len() - i,
        {
            let c = &outs[i];
            assert(c@ == self.output_list()[i as int]);
            let mut line = String::new();
            let mut k: usize = 0;
            while k < c.bits.len()
                invariant
                    k <= c@.len(),
                    line@ == bit_text(c@.take(k as int)),
                decreases c@.len() - k,
            {
                let ghost before = line@;
                proof {
                    reveal_strlit("0");
                    reveal_strlit("1");
                }
                if c.bits[k] {
                    line.append("1");
                } else {
                    line.append("0");
                }
                assert(line@ =~= before.push(if c@[k as int] { '1' } else { '0' }));
                assert(bit_text(c@.take(k + 1)) =~= bit_text(c@.take(k as int)).push(
                    if c@[k as int] { '1' } else { '0' },
                ));
                k = k + 1;
            }
            assert(c@.take(c@.len() as int) =~= c@);
            let ghost path = line@;
            proof {
                reveal_strlit(" ");
            }
            line.append(" ");
            let text = c.to_pretty_string();
            line.append(text.as_str());
            assert(line@ =~= path + seq![' '] + text@);
            assert(line@ =~= tree_line(c@));
            lines.push(line);
            i = i + 1;
        }
        lines
    }

    /// A node that is not present leaves some address of its block uncovered.
    pub proof fn lemma_uncovered(&self)
        requires
            self.wf(),
            !self.present,
        ensures
            exists|a: Seq<bool>|
                is_address(a) && self.cidr@.is_prefix_of(a) && !#[trigger] self.covers(a),
        decreases self,
    {
        let d = self.depth();
        if d == 32 {
            let a = self.cidr@;
            if let Some(c) = self.left {
                assert(c.wf());
            }
            if let Some(c) = self.right {
                assert(c.wf());
            }
            assert(a.is_prefix_of(a));
            assert(!self.covers(a));
        } else {
            lemma_span_split(d);
            let b: bool = if coverage_of(self.left) < span(d + 1) {
                false
            } else {
                true
            };
            let (this, other) = if b {
                (self.right, self.left)
            } else {
                (self.left, self.right)
            };
            let a = match this {
                Some(c) => {
                    assert(c.wf());
                    if let Some(l) = self.left {
                        assert(l.wf());
                    }
                    assert(!c.present);
                    c.lemma_uncovered();
                    let a = choose|a: Seq<bool>|
                        is_address(a) && c.cidr@.is_prefix_of(a) && !#[trigger] c.covers(a);
                    lemma_prefix_trans(self.cidr@, c.cidr@, a);
                    assert(a[d as int] == c.cidr@[d as int]);
                    a
                },
                None => {
                    let a = padded(self.cidr@.push(b));
                    assert(self.cidr@.push(b).is_prefix_of(a));
                    lemma_prefix_trans(self.cidr@, self.cidr@.push(b), a);
                    assert(a[d as int] == b);
                    a
                },
            };
            match other {
                Some(c) => if c.covers(a) {
                    c.lemma_covers_inside(a);
                    assert(a[d as int] == c.cidr@[d as int]);
                },
                None => {},
            }
            assert(!self.covers(a));
        }
    }

    /// Full collapse: once every address of the block of `p` is covered, the
    /// node for `p` or one of its ancestors is present, so the block is a single
    /// entry (or lies inside one) and nothing below it is present.
    pub proof fn lemma_full_block_present(&self, p: Seq<bool>)
        requires
            self.wf(),
            self.cidr@.is_prefix_of(p),
            p.len() <= 32,
            forall|a: Seq<bool>| is_address(a) && p.is_prefix_of(a) ==> #[trigger] self.covers(a),
        ensures
            self.absorbs(p),
        decreases self,
    {
        if !self.present {
            let d = self.depth();
            if d == p.len() {
                assert(self.cidr@ =~= p);
                self.lemma_uncovered();
                let a = choose|a: Seq<bool>|
                    is_address(a) && self.cidr@.is_prefix_of(a) && !#[trigger] self.covers(a);
                assert(self.covers(a));
            } else {
                let b = p[d as int];
                let (this, other) = if b {
                    (self.right, self.left)
                } else {
                    (self.left, self.right)
                };
                assert forall|a: Seq<bool>| is_address(a) && p.is_prefix_of(a) implies !(match other {
                    Some(c) => c.covers(a),
                    None => false,
                }) by {
                    match other {
                        Some(c) => if c.covers(a) {
                            c.lemma_covers_inside(a);
                            assert(a[d as int] == c.cidr@[d as int]);
                            assert(a[d as int] == p[d as int]);
                        },
                        None => {},
                    }
                }
                let a0 = padded(p);
                assert(p.is_prefix_of(a0));
                match this {
                    Some(c) => {
                        assert(c.cidr@ =~= p.subrange(0, d as int + 1));
                        assert forall|a: Seq<bool>| is_address(a) && p.is_prefix_of(a) implies #[trigger] c.covers(a) by {
                            assert(self.covers(a));
                        }
                        c.lemma_full_block_present(p);
                    },
                    None => {
                        // The address `a0` would be covered by neither child.
                        assert(is_address(a0));
                        assert(self.covers(a0));
                        assert(match other {
                            Some(c) => c.covers(a0),
                            None => false,
                        });
                        assert(false);
                    },
                }
            }
        }
    }

    /// The node for `q` is present.
    pub open spec fn present_at(&self, q: Seq<bool>) -> bool
        decreases self,
    {
        if self.present {
            self.cidr@ == q
        } else {
            (match self.left {
                Some(c) => c.present_at(q),
                None => false,
            }) || (match self.right {
                Some(c) => c.present_at(q),
                None => false,
            })
        }
    }

    /// Every address of the block of `q` is covered.
    pub open spec fn full(&self, q: Seq<bool>) -> bool {
        forall|a: Seq<bool>| is_address(a) && q.is_prefix_of(a) ==> #[trigger] self.covers(a)
    }

    /// Inside a child's block, the node covers what that child covers.
    proof fn lemma_covers_child(&self, c: Tree, a: Seq<bool>)
        requires
            self.wf(),
            !self.present,
            self.left == Some(Box::new(c)) || self.right == Some(Box::new(c)),
            c.cidr@.is_prefix_of(a),
        ensures
            self.covers(a) == c.covers(a),
    {
        let d = self.depth() as int;
        assert(a[d] == c.cidr@[d]);
        match self.left {
            Some(l) => if l.covers(a) {
                l.lemma_covers_inside(a);
                assert(a[d] == l.cidr@[d]);
            },
            None => {},
        }
        match self.right {
            Some(r) => if r.covers(a) {
                r.lemma_covers_inside(a);
                assert(a[d] == r.cidr@[d]);
            },
            None => {},
        }
    }

    /// A present node lies in this subtree's block, and its whole block is covered.
    proof fn lemma_present_full(&self, q: Seq<bool>, a: Seq<bool>)
        requires
            self.wf(),
            self.present_at(q),
            q.is_prefix_of(a),
        ensures
            self.cidr@.is_prefix_of(q),
            self.covers(a),
        decreases self,
    {
        if !self.present {
            match self.left {
                Some(c) => if c.present_at(q) {
                    c.lemma_present_full(q, a);
                    lemma_prefix_trans(self.cidr@, c.cidr@, q);
                    return;
                },
                None => {},
            }
            match self.right {
                Some(c) => if c.present_at(q) {
                    c.lemma_present_full(q, a);
                    lemma_prefix_trans(self.cidr@, c.cidr@, q);
                },
                None => {},
            }
        } else {
            assert(q.is_prefix_of(q));
        }
    }

    /// Above a present node strictly inside this subtree, the parent's block
    /// is not fully covered.
    proof fn lemma_present_parent(&self, q: Seq<bool>)
        requires
            self.wf(),
            self.present_at(q),
            q.len() > self.depth(),
        ensures
            !self.full(q.drop_last()),
        decreases self,
    {
        let d = self.depth();
        assert(!self.present);
        let c: Tree = if (match self.left {
            Some(l) => l.present_at(q),
            None => false,
        }) {
            *self.left.unwrap()
        } else {
            *self.right.unwrap()
        };
        assert(c.present_at(q));
        assert(self.left == Some(Box::new(c)) || self.right == Some(Box::new(c)));
        assert(q.is_prefix_of(q));
        c.lemma_present_full(q, q);
        if q.len() == d + 1 {
            assert(q.drop_last() =~= self.cidr@);
            self.lemma_uncovered();
            let a = choose|a: Seq<bool>|
                is_address(a) && self.cidr@.is_prefix_of(a) && !#[trigger] self.covers(a);
            assert(!self.covers(a));
        } else {
            c.lemma_present_parent(q);
            let a = choose|a: Seq<bool>|
                is_address(a) && q.drop_last().is_prefix_of(a) && !#[trigger] c.covers(a);
            assert(c.cidr@.is_prefix_of(q.drop_last())) by {
                assert(c.cidr@ =~= q.drop_last().subrange(0, c.cidr@.len() as int));
            }
            lemma_prefix_trans(c.cidr@, q.drop_last(), a);
            self.lemma_covers_child(c, a);
            assert(!self.covers(a));
        }
    }

    /// Where `q` is absorbed, either its own node is present or the whole
    /// block of its parent is covered.
    proof fn lemma_absorbs_at(&self, q: Seq<bool>)
        requires
            self.wf(),
            self.absorbs(q),
            self.cidr@.is_prefix_of(q),
        ensures
            self.present_at(q) || (q.len() > 0 && self.full(q.drop_last())),
        decreases self,
    {
        let d = self.depth() as int;
        if self.present {
            if d < q.len() {
                assert(self.cidr@.is_prefix_of(q.drop_last())) by {
                    assert(self.cidr@ =~= q.drop_last().subrange(0, d));
                }
                assert forall|a: Seq<bool>| is_address(a) && q.drop_last().is_prefix_of(
                    a,
                ) implies #[trigger] self.covers(a) by {
                    lemma_prefix_trans(self.cidr@, q.drop_last(), a);
                }
            } else {
                assert(self.cidr@ =~= q);
            }
        } else {
            let c = if q[d] {
                self.right.unwrap()
            } else {
                self.left.unwrap()
            };
            assert(c.cidr@ =~= q.subrange(0, d + 1));
            c.lemma_absorbs_at(q);
            if !c.present_at(q) {
                assert forall|a: Seq<bool>| is_address(a) && q.drop_last().is_prefix_of(
                    a,
                ) implies #[trigger] self.covers(a) by {
                    assert(c.covers(a));
                }
            }
        }
    }

    /// Canonical shape: a node is present exactly when its whole block is
    /// covered and its parent's block is not. So the output set depends only
    /// on the addresses covered, not on the order in which prefixes came.
    pub proof fn lemma_present_iff_maximal(&self, q: Seq<bool>)
        requires
            self.wf(),
            self.depth() == 0,
            q.len() <= 32,
        ensures
            self.present_at(q) <==> (self.full(q) && (q.len() == 0 || !self.full(q.drop_last()))),
    {
        assert(self.cidr@.is_prefix_of(q));
        if self.present_at(q) {
            assert forall|a: Seq<bool>| is_address(a) && q.is_prefix_of(a) implies #[trigger] self.covers(
                a,
            ) by {
                self.lemma_present_full(q, a);
            }
            if q.len() > 0 {
                self.lemma_present_parent(q);
            }
        }
        if self.full(q) && (q.len() == 0 || !self.full(q.drop_last())) {
            self.lemma_full_block_present(q);
            self.lemma_absorbs_at(q);
        }
    }

    /// The output listing holds exactly the present prefixes.
    pub proof fn lemma_outputs_are_present(&self, q: Seq<bool>)
        requires
            self.wf(),
        ensures
            self.output_list().contains(q) <==> self.present_at(q),
        decreases self,
    {
        if self.present {
            assert(self.output_list()[0] == self.cidr@);
        } else {
            let l = outputs_of(self.left);
            let r = outputs_of(self.right);
            match self.left {
                Some(c) => c.lemma_outputs_are_present(q),
                None => {},
            }
            match self.right {
                Some(c) => c.lemma_outputs_are_present(q),
                None => {},
            }
            if self.output_list().contains(q) {
                let i = choose|i: int| 0 <= i < self.output_list().len() && self.output_list()[i] == q;
                if i < l.len() {
                    assert(l[i] == q);
                } else {
                    assert(r[i - l.len()] == q);
                }
            }
            if l.contains(q) {
                let i = choose|i: int| 0 <= i < l.len() && l[i] == q;
                assert(self.output_list()[i] == q);
            }
            if r.contains(q) {
                let i = choose|i: int| 0 <= i < r.len() && r[i] == q;
                assert(self.output_list()[l.len() + i] == q);
            }
        }
    }

    /// Collapsing the block of `c` covers `c.0 >= 1` more addresses and takes
    /// no entry away more than it gives.
    pub open spec fn good_candidate(&self, c: (nat, nat, Seq<bool>)) -> bool {
        &&& self.cidr@.is_prefix_of(c.2)
        &&& c.2.len() <= 32
        &&& c.0 >= 1
        &&& c.0 == span(c.2.len()) - self.covered_within(c.2)
        &&& self.merge_ok(c.2)
        &&& !self.absorbs(c.2)
    }

    /// The best candidate of a node with entries that is not present names a
    /// block in its subtree whose collapse covers `cost >= 1` more addresses and
    /// takes no entry away more than it gives.
    pub proof fn lemma_best_candidate(&self)
        requires
            self.wf(),
            !self.present,
            self.cidr_count >= 1,
        ensures
            match self.best_view() {
                Some(c) => self.good_candidate(c),
                None => false,
            },
        decreases self,
    {
        let d = self.depth() as int;
        let own = self.own_candidate();
        assert(self.cidr@.is_prefix_of(self.cidr@));
        assert(self.covered_within(own.2) == self.coverage);
        assert(self.merge_ok(own.2));
        assert(!self.absorbs(own.2));
        assert(self.good_candidate(own));
        assert(self.best_view() == pick(pick(Some(own), best_of(self.left)), best_of(self.right)));
        match self.left {
            Some(c) => if !c.present {
                c.lemma_best_candidate();
                let b = c.best_view().unwrap();
                lemma_prefix_trans(self.cidr@, c.cidr@, b.2);
                assert(b.2[d] == c.cidr@[d]);
                assert(self.good_candidate(b));
            } else {
                assert(c.wf());
                assert(c.best_view() is None);
            },
            None => {},
        }
        match self.right {
            Some(c) => if !c.present {
                c.lemma_best_candidate();
                let b = c.best_view().unwrap();
                lemma_prefix_trans(self.cidr@, c.cidr@, b.2);
                assert(b.2[d] == c.cidr@[d]);
                assert(self.good_candidate(b));
            } else {
                assert(c.wf());
                assert(c.best_view() is None);
            },
            None => {},
        }
    }

    /// A trie holding only the root, for the whole address space, with nothing present.
    pub fn new() -> (r: Self)
        ensures
            r.wf(),
            r.depth() == 0,
            !r.present,
            r.cidr_count == 0,
            r.node_count == 1,
            r.coverage == 0,
            forall|a: Seq<bool>| !#[trigger] r.covers(a),
    {
        Tree::new_node(Cidr { bits: Vec::new() })
    }

    /// Adds the block of `cidr` to the output. Two present siblings are merged
    /// into their parent on the way back up.
    pub fn insert(&mut self, cidr: &Cidr)
        requires
            old(self).wf(),
            old(self).depth() == 0,
            cidr.wf(),
        ensures
            final(self).wf(),
            final(self).depth() == 0,
            forall|a: Seq<bool>|
                is_address(a) ==> (#[trigger] final(self).covers(a) <==> old(self).covers(a)
                    || cidr@.is_prefix_of(a)),
            final(self).coverage == old(self).coverage + span(cidr@.len()) - old(
                self,
            ).covered_within(cidr@),
            old(self).coverage <= final(self).coverage <= span(0),
            old(self).absorbs(cidr@) ==> final(self).cidr_count == old(self).cidr_count
                && final(self).node_count == old(self).node_count && final(self).coverage == old(
                self,
            ).coverage,
            old(self).merge_ok(cidr@) ==> final(self).cidr_count <= old(self).cidr_count,
    {
        assert(self.cidr@.is_prefix_of(cidr@));
        let ghost o = *self;
        self.insert_bits(&cidr.bits);
        proof {
            o.lemma_covered_within_bound(cidr@);
            if o.absorbs(cidr@) {
                o.lemma_absorbs_covered(cidr@);
            }
        }
    }

    /// Entries of the output.
    pub fn cidrs(&self) -> (r: u64)
        ensures
            r == self.cidr_count,
    {
        self.cidr_count
    }

    /// Nodes of the trie.
    pub fn nodes(&self) -> (r: u64)
        ensures
            r == self.node_count,
    {
        self.node_count
    }

    /// Addresses of this node's block that the output covers; for the root,
    /// out of 2^32.
    pub fn coverage(&self) -> (r: u64)
        ensures
            r == self.coverage,
    {
        self.coverage
    }

    /// The cheapest collapse in the trie; none once the root is present.
    pub fn best_coverage(&self) -> (r: Option<&MergeCandidate>)
        ensures
            match r {
                Some(c) => self.best_view() == Some(c.view()),
                None => self.best_view() is None,
            },
    {
        self.best_coverage.as_ref()
    }

    /// Collapses the cheapest block, again and again, until at most `target`
    /// entries are left or the root itself is present. Returns the coverage and
    /// the number of entries before each collapse.
    pub fn reduce(&mut self, target: u64) -> (progress: Vec<(u64, u64)>)
        requires
            old(self).wf(),
            old(self).depth() == 0,
        ensures
            final(self).wf(),
            final(self).depth() == 0,
            final(self).cidr_count <= target || final(self).present,
            final(self).present ==> final(self).cidr_count == 1,
            final(self).cidr_count <= old(self).cidr_count,
            old(self).coverage <= final(self).coverage,
            forall|a: Seq<bool>| is_address(a) && old(self).covers(a) ==> #[trigger] final(self).covers(a),
            old(self).cidr_count <= target ==> progress@.len() == 0,
            progress@.len() <= final(self).coverage - old(self).coverage,
            progress@.len() == 0 ==> final(self).cidr_count == old(self).cidr_count
                && final(self).coverage == old(self).coverage,
            progress@.len() > 0 ==> progress@[0] == (old(self).coverage, old(self).cidr_count),
            progress@.len() > 0 ==> progress@.last().0 < final(self).coverage
                && progress@.last().1 >= final(self).cidr_count,
            forall|i: int| 0 <= i < progress@.len() ==> #[trigger] progress@[i].1 > target,
            forall|i: int|
                0 <= i < progress@.len() - 1 ==> #[trigger] progress@[i].0 < progress@[i + 1].0
                    && progress@[i].1 >= progress@[i + 1].1,
    {
        let ghost o = *self;
        let mut progress: Vec<(u64, u64)> = Vec::new();
        while self.cidr_count > target
            invariant
                self.wf(),
                self.depth() == 0,
                self.cidr_count <= o.cidr_count,
                o.coverage <= self.coverage,
                forall|a: Seq<bool>| is_address(a) && o.covers(a) ==> #[trigger] self.covers(a),
                o.cidr_count <= target ==> progress@.len() == 0,
                progress@.len() <= self.coverage - o.coverage,
                progress@.len() == 0 ==> self.cidr_count == o.cidr_count && self.coverage
                    == o.coverage,
                progress@.len() > 0 ==> progress@[0] == (o.coverage, o.cidr_count),
                progress@.len() > 0 ==> progress@.last().0 < self.coverage
                    && progress@.last().1 >= self.cidr_count,
                forall|i: int| 0 <= i < progress@.len() ==> #[trigger] progress@[i].1 > target,
                forall|i: int|
                    0 <= i < progress@.len() - 1 ==> #[trigger] progress@[i].0 < progress@[i + 1].0
                        && progress@[i].1 >= progress@[i + 1].1,
            ensures
                self.cidr_count <= target || self.present,
            decreases span(0) - self.coverage,
        {
            if self.present {
                break;
            }
            proof {
                self.lemma_best_candidate();
            }
            let best = match &self.best_coverage {
                Some(c) => c.cidr.clone(),
                None => {
                    break;
                },
            };
            let ghost before = progress@;
            progress.push((self.coverage, self.cidr_count));
            assert(progress@.drop_last() == before);
            self.insert(&best);
        }
        progress
    }


    /// The covered part of a block is at most the block.
    pub proof fn lemma_covered_within_bound(&self, p: Seq<bool>)
        requires
            self.wf(),
            self.cidr@.is_prefix_of(p),
            p.len() <= 32,
        ensures
            self.covered_within(p) <= span(p.len()),
        decreases self,
    {
        if !self.present && self.depth() < p.len() {
            let d = self.depth() as int;
            match self.left {
                Some(c) => if !p[d] {
                    assert(c.cidr@ =~= p.subrange(0, d as int + 1));
                    c.lemma_covered_within_bound(p);
                },
                None => {},
            }
            match self.right {
                Some(c) => if p[d] {
                    assert(c.cidr@ =~= p.subrange(0, d as int + 1));
                    c.lemma_covered_within_bound(p);
                },
                None => {},
            }
        }
    }

    /// An absorbed block is covered in full.
    pub proof fn lemma_absorbs_covered(&self, p: Seq<bool>)
        requires
            self.wf(),
            self.absorbs(p),
        ensures
            self.covered_within(p) == span(p.len()),
        decreases self,
    {
        if !self.present {
            let d = self.depth() as int;
            if p[d] {
                self.right.unwrap().lemma_absorbs_covered(p);
            } else {
                self.left.unwrap().lemma_absorbs_covered(p);
            }
        }
    }

    pub fn new_node(cidr: Cidr) -> (r: Self)
        requires
            cidr@.len() <= 32,
        ensures
            r.wf(),
            r.cidr@ == cidr@,
            !r.present,
            r.left is None,
            r.right is None,
            r.cidr_count == 0,
            r.coverage == 0,
    {
        let size = block_size(cidr.size());
        proof {
            lemma_block_bounds((32 - cidr@.len()) as nat);
        }
        let cand = MergeCandidate { cost: size, cidrs: 0, cidr: cidr.clone() };
        Tree {
            cidr,
            present: false,
            cidr_count: 0,
            node_count: 1,
            coverage: 0,
            left: None,
            right: None,
            best_coverage: Some(cand),
        }
    }

    /// Declares the whole block present; children are dropped, as the block covers them.
    fn make_present(&mut self)
        ensures
            *final(self) == (Tree { present: true, left: None, right: None, ..*old(self) }),
    {
        self.present = true;
        self.left = None;
        self.right = None;
    }

    /// Two present children fill the block: the node itself becomes present.
    fn optimize(&mut self)
        ensures
            if is_present(old(self).left) && is_present(old(self).right) {
                *final(self) == (Tree { present: true, left: None, right: None, ..*old(self) })
            } else {
                *final(self) == *old(self)
            },
    {
        let all_childs_present = match (&self.left, &self.right) {
            (Some(l), Some(r)) => l.present && r.present,
            _ => false,
        };
        if all_childs_present {
            self.make_present()
        }
    }

    fn update_coverage(&mut self)
        requires
            old(self).depth() <= 32,
            !old(self).present ==> coverage_of(old(self).left) + coverage_of(old(self).right)
                < span(old(self).depth()),
        ensures
            *final(self) == (Tree { coverage: final(self).coverage, ..*old(self) }),
            final(self).coverage == if old(self).present {
                span(old(self).depth())
            } else {
                coverage_of(old(self).left) + coverage_of(old(self).right)
            },
    {
        if self.present {
            self.coverage = block_size(self.cidr.size());
        } else {
            let l: u64 = match &self.left {
                Some(c) => c.coverage,
                None => 0,
            };
            let r: u64 = match &self.right {
                Some(c) => c.coverage,
                None => 0,
            };
            proof {
                lemma_block_bounds((32 - self.depth()) as nat);
            }
            self.coverage = l + r;
        }
    }

    fn update_node_count(&mut self)
        requires
            nodes_of(old(self).left) + nodes_of(old(self).right) < 8589934592,
        ensures
            *final(self) == (Tree { node_count: final(self).node_count, ..*old(self) }),
            final(self).node_count == 1 + nodes_of(old(self).left) + nodes_of(old(self).right),
    {
        let l: u64 = match &self.left {
            Some(c) => c.node_count,
            None => 0,
        };
        let r: u64 = match &self.right {
            Some(c) => c.node_count,
            None => 0,
        };
        self.node_count = 1 + l + r;
    }

    fn update_cidr_count(&mut self)
        requires
            count_of(old(self).left) + count_of(old(self).right) < 8589934592,
        ensures
            *final(self) == (Tree { cidr_count: final(self).cidr_count, ..*old(self) }),
            final(self).cidr_count == if old(self).present {
                1
            } else {
                count_of(old(self).left) + count_of(old(self).right)
            },
    {
        if self.present {
            self.cidr_count = 1;
        } else {
            let l: u64 = match &self.left {
                Some(c) => c.cidr_count,
                None => 0,
            };
            let r: u64 = match &self.right {
                Some(c) => c.cidr_count,
                None => 0,
            };
            self.cidr_count = l + r;
        }
    }

    /// Inserts the prefix `bits`, which extends this node's own prefix, and
    /// restores every stored value on the way back up.
    fn insert_bits(&mut self, bits: &Vec<bool>)
        requires
            old(self).wf(),
            bits@.len() <= 32,
            old(self).cidr@.is_prefix_of(bits@),
        ensures
            final(self).wf(),
            final(self).cidr@ == old(self).cidr@,
            final(self).cidr_count >= 1,
            forall|a: Seq<bool>|
                is_address(a) ==> (#[trigger] final(self).covers(a) <==> old(self).covers(a)
                    || bits@.is_prefix_of(a)),
            final(self).coverage == old(self).coverage + span(bits@.len()) - old(
                self,
            ).covered_within(bits@),
            old(self).absorbs(bits@) ==> final(self).present == old(self).present
                && final(self).cidr_count == old(self).cidr_count && final(self).node_count
                == old(self).node_count,
            old(self).merge_ok(bits@) ==> final(self).cidr_count <= old(self).cidr_count,
        decreases 32 - old(self).depth(),
    {
        let ghost o = *self;
        if self.present {
            assert forall|a: Seq<bool>| is_address(a) && bits@.is_prefix_of(a) implies o.covers(a) by {
                lemma_prefix_trans(o.cidr@, bits@, a);
            }
            return ;
        }
        let depth = self.cidr.size();
        proof {
            lemma_block_bounds((32 - depth) as nat);
        }
        if depth < bits.len() {
            proof {
                lemma_span_split(depth as nat);
            }
            let bit = bits[depth];
            let next = self.cidr.push(bit);
            assert(next@.is_prefix_of(bits@)) by {
                lemma_prefix_children(o.cidr@, bits@);
            }
            let slot = if bit {
                self.right.take()
            } else {
                self.left.take()
            };
            let mut child = match slot {
                Some(c) => c,
                None => Box::new(Tree::new_node(next)),
            };
            let ghost c0 = *child;
            (&mut *child).insert_bits(bits);
            let ghost c1 = *child;
            if bit {
                self.right = Some(child);
            } else {
                self.left = Some(child);
            }
            let ghost s1 = *self;
            assert(match s1.left {
                Some(c) => c.child_of(o.cidr@.push(false)),
                None => true,
            });
            assert(match s1.right {
                Some(c) => c.child_of(o.cidr@.push(true)),
                None => true,
            });
            assert(o.covered_within(bits@) == c0.covered_within(bits@));
            assert forall|a: Seq<bool>| is_address(a) implies (s1.covers(a) <==> o.covers(a)
                || bits@.is_prefix_of(a)) by {
                assert(c1.covers(a) <==> c0.covers(a) || bits@.is_prefix_of(a));
            }
            assert forall|a: Seq<bool>|
                is_address(a) && is_present(s1.left) && is_present(s1.right) implies (s1.covers(a)
                <==> o.cidr@.is_prefix_of(a)) by {
                lemma_prefix_children(o.cidr@, a);
                let l = s1.left.unwrap();
                let r = s1.right.unwrap();
                assert(l.covers(a) == l.cidr@.is_prefix_of(a));
                assert(r.covers(a) == r.cidr@.is_prefix_of(a));
            }
        } else {
            assert(o.cidr@ =~= bits@);
            assert forall|a: Seq<bool>| is_address(a) && o.covers(a) implies bits@.is_prefix_of(
                a,
            ) by {
                o.lemma_covers_inside(a);
            }
            self.make_present();
        }
        self.optimize();
        self.update_cidr_count();
        self.update_node_count();
        self.update_coverage();
        self.update_best_coverage();
    }

    /// Chooses the cheapest collapse in this subtree (see `chosen_best`).
    fn update_best_coverage(&mut self)
        requires
            old(self).depth() <= 32,
            !old(self).present ==> old(self).coverage <= span(old(self).depth()),
        ensures
            *final(self) == (Tree { best_coverage: final(self).best_coverage, ..*old(self) }),
            final(self).best_view() == old(self).chosen_best(),
    {
        if self.present {
            self.best_coverage = None;
            return ;
        }
        let size = block_size(self.cidr.size());
        let mut best = MergeCandidate {
            cost: size - self.coverage,
            cidrs: self.cidr_count,
            cidr: self.cidr.clone(),
        };
        assert(Some(best.view()) == Some(self.own_candidate()));
        match &self.left {
            Some(c) => match &c.best_coverage {
                Some(b) => if b.cost < best.cost {
                    best = b.clone();
                },
                None => {},
            },
            None => {},
        }
        assert(Some(best.view()) == pick(Some(self.own_candidate()), best_of(self.left)));
        match &self.right {
            Some(c) => match &c.best_coverage {
                Some(b) => if b.cost < best.cost {
                    best = b.clone();
                },
                None => {},
            },
            None => {},
        }
        self.best_coverage = Some(best);
    }
}

} // verus!

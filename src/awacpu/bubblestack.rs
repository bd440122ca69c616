use std::collections::VecDeque;
use vstd::prelude::*;
use vstd::std_specs::vecdeque::VecDequeAdditionalSpecFns;

use super::awascii::{int_text, push_digits, push_scalar, scalar_text};
use super::string_of;
use crate::errors::{AwawaError, AwawaResult};

verus! {

broadcast use vstd::std_specs::vecdeque::group_vec_dequeue_axioms;

/// The value a bubble stands for: a scalar, or an ordered sequence of
/// bubbles whose first element is the front.
pub ghost enum BubbleTree {
    Leaf(i32),
    Node(Seq<BubbleTree>),
}

/// An item of the bubble abyss.
#[derive(Debug, PartialEq)]
pub enum BubbleItem {
    Bubble(i32),
    DoubleBubble(VecDeque<BubbleItem>),
}

pub open spec fn item_view(b: BubbleItem) -> BubbleTree
    decreases b, 0nat,
{
    match b {
        BubbleItem::Bubble(v) => BubbleTree::Leaf(v),
        BubbleItem::DoubleBubble(d) => BubbleTree::Node(items_view(d, d@.len())),
    }
}

/// The values of the first `n` items of `d`.
pub open spec fn items_view(d: VecDeque<BubbleItem>, n: nat) -> Seq<BubbleTree>
    decreases d, n,
{
    if n == 0 || n > d@.len() {
        Seq::empty()
    } else {
        items_view(d, (n - 1) as nat).push(item_view(d[n - 1]))
    }
}

/// The values of the items of `d`, front first.
pub open spec fn deque_view(d: VecDeque<BubbleItem>) -> Seq<BubbleTree> {
    d@.map_values(|x: BubbleItem| item_view(x))
}

impl View for BubbleItem {
    type V = BubbleTree;

    open spec fn view(&self) -> BubbleTree {
        item_view(*self)
    }
}

pub proof fn lemma_items_view(d: VecDeque<BubbleItem>, n: nat)
    requires
        n <= d@.len(),
    ensures
        items_view(d, n) =~= d@.take(n as int).map_values(|x: BubbleItem| item_view(x)),
    decreases n,
{
    if n > 0 {
        lemma_items_view(d, (n - 1) as nat);
    }
}

/// The value of a double bubble is the sequence of its items' values.
pub broadcast proof fn lemma_double_view(d: VecDeque<BubbleItem>)
    ensures
        #[trigger] item_view(BubbleItem::DoubleBubble(d)) == BubbleTree::Node(deque_view(d)),
{
    lemma_items_view(d, d@.len());
    assert(d@.take(d@.len() as int) =~= d@);
}

impl BubbleItem {
    /// A deep structural copy.
    pub fn deep_clone(&self) -> (r: BubbleItem)
        ensures
            r@ == self@,
        decreases self,
    {
        broadcast use lemma_double_view;

        match self {
            BubbleItem::Bubble(v) => BubbleItem::Bubble(*v),
            BubbleItem::DoubleBubble(d) => {
                let mut out: VecDeque<BubbleItem> = VecDeque::new();
                let mut i: usize = 0;
                while i < d.len()
                    invariant
                        *self == BubbleItem::DoubleBubble(*d),
                        i <= d@.len(),
                        deque_view(out) =~= deque_view(*d).take(i as int),
                    decreases d@.len() - i,
                {
                    proof {
                        assert(decreases_to!(*d => d@[i as int]));
                        assert(decreases_to!(*self => (*self)->DoubleBubble_0));
                        assert(decreases_to!(*self => d@[i as int]));
                    }
                    let c = d[i].deep_clone();
                    let ghost before = out;
                    out.push_back(c);
                    proof {
                        assert(deque_view(out) =~= deque_view(before).push(c@));
                        assert(deque_view(*d).take(i + 1) =~= deque_view(*d).take(i as int).push(
                            item_view(d@[i as int]),
                        ));
                    }
                    i += 1;
                }
                assert(deque_view(*d).take(d@.len() as int) =~= deque_view(*d));
                BubbleItem::DoubleBubble(out)
            },
        }
    }
}

/// The bubble abyss: a stack whose front is its top.
#[derive(Debug)]
pub struct BubbleStack {
    stack: VecDeque<BubbleItem>,
}

impl View for BubbleStack {
    type V = Seq<BubbleTree>;

    closed spec fn view(&self) -> Seq<BubbleTree> {
        deque_view(self.stack)
    }
}

/// The value that `count` pushes for `t`: its length if it is a double bubble.
pub open spec fn count_of(t: BubbleTree) -> i32 {
    match t {
        BubbleTree::Leaf(_) => 0,
        BubbleTree::Node(s) => s.len() as i32,
    }
}

/// Which comparison `compare` applies to the two front items.
#[derive(Debug, Clone, Copy, PartialEq, Eq, Structural)]
pub enum Comparison {
    Equal,
    Less,
    Greater,
}

pub open spec fn compare_holds(cmp: Comparison, a: i32, b: i32) -> bool {
    match cmp {
        Comparison::Equal => a == b,
        Comparison::Less => a < b,
        Comparison::Greater => a > b,
    }
}

impl Default for BubbleStack {
    fn default() -> (r: Self)
        ensures
            r@ == Seq::<BubbleTree>::empty(),
    {
        BubbleStack::new()
    }
}

impl BubbleStack {
    /// An empty abyss.
    pub fn new() -> (r: Self)
        ensures
            r@ == Seq::<BubbleTree>::empty(),
    {
        BubbleStack { stack: VecDeque::new() }
    }

    pub fn len(&self) -> (r: usize)
        ensures
            r == self@.len(),
    {
        self.stack.len()
    }

    /// The item `i` places from the front.
    pub fn get(&self, i: usize) -> (r: Option<&BubbleItem>)
        ensures
            i < self@.len() ==> (r matches Some(x) && x@ == self@[i as int]),
            i >= self@.len() ==> r is None,
    {
        if i < self.stack.len() {
            Some(&self.stack[i])
        } else {
            None
        }
    }

    /// Removes and returns the front item.
    pub fn pop(&mut self) -> (r: Result<BubbleItem, AwawaError>)
        ensures
            old(self)@.len() > 0 ==> (r matches Ok(x) && x@ == old(self)@[0]
                && final(self)@ == old(self)@.drop_first()),
            old(self)@.len() == 0 ==> (r matches Err(AwawaError::BubbleAbyssEmpty)
                && final(self)@ == old(self)@),
    {
        match self.stack.pop_front() {
            Some(x) => Ok(x),
            None => Err(AwawaError::BubbleAbyssEmpty),
        }
    }

    /// Pushes a bubble holding `val` at the front.
    pub fn push(&mut self, val: i8)
        ensures
            final(self)@ == seq![BubbleTree::Leaf(val as i32)] + old(self)@,
    {
        self.stack.push_front(BubbleItem::Bubble(val as i32));
    }

    /// Pushes `val` at the front.
    pub fn push_bubble(&mut self, val: BubbleItem)
        ensures
            final(self)@ == seq![val@] + old(self)@,
    {
        self.stack.push_front(val);
    }

    /// Replaces the front `val` items by one double bubble that holds them in order.
    pub fn surround(&mut self, val: usize) -> (r: AwawaResult)
        ensures
            val <= old(self)@.len() ==> r is Ok && final(self)@ == seq![
                BubbleTree::Node(old(self)@.take(val as int)),
            ] + old(self)@.skip(val as int),
            val > old(self)@.len() ==> (r matches Err(AwawaError::BubbleAbyssOutOfBounds)
                && final(self)@ == old(self)@),
    {
        broadcast use lemma_double_view;

        if val > self.stack.len() {
            return Err(AwawaError::BubbleAbyssOutOfBounds);
        }
        let mut front = self.stack.split_off(val);
        std::mem::swap(&mut self.stack, &mut front);
        self.stack.push_front(BubbleItem::DoubleBubble(front));
        assert(deque_view(front) =~= old(self)@.take(val as int));
        assert(self@ =~= seq![BubbleTree::Node(old(self)@.take(val as int))] + old(self)@.skip(val as int));
        Ok(())
    }

    /// Pushes a deep copy of the front item.
    pub fn duplicate(&mut self) -> (r: AwawaResult)
        ensures
            old(self)@.len() > 0 ==> r is Ok && final(self)@ == seq![old(self)@[0]] + old(self)@,
            old(self)@.len() == 0 ==> (r matches Err(AwawaError::BubbleAbyssEmpty)
                && final(self)@ == old(self)@),
    {
        if self.stack.len() == 0 {
            return Err(AwawaError::BubbleAbyssEmpty);
        }
        let copy = self.stack[0].deep_clone();
        self.stack.push_front(copy);
        assert(self@ =~= seq![old(self)@[0]] + old(self)@);
        Ok(())
    }

    /// Moves the front item down: to the back when `val` is 0, else to
    /// where exactly `val` items precede it.
    pub fn submerge(&mut self, val: usize) -> (r: AwawaResult)
        ensures
            old(self)@.len() == 0 ==> (r matches Err(AwawaError::BubbleAbyssEmpty)
                && final(self)@ == old(self)@),
            old(self)@.len() > 0 && val == 0 ==> r is Ok
                && final(self)@ == old(self)@.drop_first().push(old(self)@[0]),
            old(self)@.len() > 0 && 0 < val < old(self)@.len() ==> r is Ok
                && final(self)@ == old(self)@.drop_first().insert(val as int, old(self)@[0]),
            old(self)@.len() > 0 && val >= old(self)@.len() ==> (r matches Err(
                AwawaError::BubbleAbyssOutOfBounds,
            ) && final(self)@ == old(self)@),
    {
        if self.stack.len() == 0 {
            return Err(AwawaError::BubbleAbyssEmpty);
        }
        if val != 0 && val >= self.stack.len() {
            return Err(AwawaError::BubbleAbyssOutOfBounds);
        }
        let top = match self.stack.pop_front() {
            Some(x) => x,
            None => return Err(AwawaError::BubbleAbyssEmpty),
        };
        if val == 0 {
            self.stack.push_back(top);
            assert(self@ =~= old(self)@.drop_first().push(old(self)@[0]));
        } else {
            self.stack.insert(val, top);
            assert(self@ =~= old(self)@.drop_first().insert(val as int, old(self)@[0]));
        }
        Ok(())
    }

    /// Pops the front item; a double bubble leaves its items in its place.
    pub fn pop_bubble(&mut self) -> (r: AwawaResult)
        ensures
            old(self)@.len() == 0 ==> (r matches Err(AwawaError::BubbleAbyssEmpty)
                && final(self)@ == old(self)@),
            old(self)@.len() > 0 ==> r is Ok && final(self)@ == match old(self)@[0] {
                BubbleTree::Leaf(_) => old(self)@.drop_first(),
                BubbleTree::Node(s) => s + old(self)@.drop_first(),
            },
    {
        broadcast use lemma_double_view;

        let top = match self.stack.pop_front() {
            Some(x) => x,
            None => return Err(AwawaError::BubbleAbyssEmpty),
        };
        match top {
            BubbleItem::Bubble(_) => {
                assert(self@ =~= old(self)@.drop_first());
            },
            BubbleItem::DoubleBubble(double) => {
                let mut double = double;
                let ghost inner = double;
                double.append(&mut self.stack);
                self.stack = double;
                assert(self@ =~= deque_view(inner) + old(self)@.drop_first());
            },
        }
        Ok(())
    }

    /// Applies `cmp` to the scalars of the front item and the one after it;
    /// false when either is a double bubble.
    pub fn compare(&self, cmp: Comparison) -> (r: Result<bool, AwawaError>)
        ensures
            self@.len() < 2 ==> r matches Err(AwawaError::BubbleAbyssEmpty),
            self@.len() >= 2 ==> (r matches Ok(b) && b == match (self@[0], self@[1]) {
                (BubbleTree::Leaf(x), BubbleTree::Leaf(y)) => compare_holds(cmp, x, y),
                _ => false,
            }),
    {
        if self.stack.len() < 2 {
            return Err(AwawaError::BubbleAbyssEmpty);
        }
        let a = match &self.stack[0] {
            BubbleItem::DoubleBubble(_) => return Ok(false),
            BubbleItem::Bubble(x) => *x,
        };
        let b = match &self.stack[1] {
            BubbleItem::DoubleBubble(_) => return Ok(false),
            BubbleItem::Bubble(x) => *x,
        };
        let res = match cmp {
            Comparison::Equal => a == b,
            Comparison::Less => a < b,
            Comparison::Greater => a > b,
        };
        Ok(res)
    }

    /// Pushes the length of the front item (0 for a bubble), keeping the item.
    pub fn count(&mut self) -> (r: AwawaResult)
        ensures
            old(self)@.len() == 0 ==> (r matches Err(AwawaError::BubbleAbyssEmpty)
                && final(self)@ == old(self)@),
            old(self)@.len() > 0 ==> r is Ok && final(self)@ == seq![
                BubbleTree::Leaf(count_of(old(self)@[0])),
            ] + old(self)@,
    {
        broadcast use lemma_double_view;

        if self.stack.len() == 0 {
            return Err(AwawaError::BubbleAbyssEmpty);
        }
        let n = match &self.stack[0] {
            BubbleItem::Bubble(_) => 0,
            BubbleItem::DoubleBubble(b) => b.len() as i32,
        };
        self.stack.push_front(BubbleItem::Bubble(n));
        assert(self@ =~= seq![BubbleTree::Leaf(count_of(old(self)@[0]))] + old(self)@);
        Ok(())
    }
}

/// The scalars of a bubble, front first, depth first.
pub open spec fn leaves(t: BubbleTree) -> Seq<i32>
    decreases t, 1nat,
{
    match t {
        BubbleTree::Leaf(v) => seq![v],
        BubbleTree::Node(s) => leaves_of(s),
    }
}

/// The scalars of a sequence of bubbles, in order.
pub open spec fn leaves_of(s: Seq<BubbleTree>) -> Seq<i32>
    decreases s, 0nat,
{
    if s.len() == 0 {
        Seq::empty()
    } else {
        leaves(s[0]) + leaves_of(s.subrange(1, s.len() as int))
    }
}

pub proof fn lemma_leaves_of_push(s: Seq<BubbleTree>, t: BubbleTree)
    ensures
        leaves_of(s.push(t)) == leaves_of(s) + leaves(t),
    decreases s.len(),
{
    if s.len() == 0 {
        assert(seq![t].subrange(1, 1) =~= Seq::<BubbleTree>::empty());
        assert(s.push(t) =~= seq![t]);
        assert(leaves_of(Seq::<BubbleTree>::empty()) == Seq::<i32>::empty());
        assert(leaves_of(seq![t]) == leaves(t) + leaves_of(seq![t].subrange(1, 1)));
        assert(leaves(t) + Seq::<i32>::empty() =~= leaves(t));
        assert(Seq::<i32>::empty() + leaves(t) =~= leaves(t));
    } else {
        lemma_leaves_of_push(s.subrange(1, s.len() as int), t);
        assert(s.push(t).subrange(1, s.len() + 1int) =~= s.subrange(1, s.len() as int).push(t));
        assert(s.push(t)[0] == s[0]);
        assert(leaves(s[0]) + (leaves_of(s.subrange(1, s.len() as int)) + leaves(t)) =~= (leaves(
            s[0],
        ) + leaves_of(s.subrange(1, s.len() as int))) + leaves(t));
    }
}

impl BubbleItem {
    /// Appends the scalars of this bubble, front first, depth first.
    pub fn collect_leaves(&self, out: &mut Vec<i32>)
        ensures
            final(out)@ == old(out)@ + leaves(self@),
        decreases self,
    {
        broadcast use lemma_double_view;

        match self {
            BubbleItem::Bubble(v) => {
                out.push(*v);
            },
            BubbleItem::DoubleBubble(d) => {
                let mut i: usize = 0;
                assert(deque_view(*d).take(0) =~= Seq::<BubbleTree>::empty());
                while i < d.len()
                    invariant
                        *self == BubbleItem::DoubleBubble(*d),
                        i <= d@.len(),
                        out@ == old(out)@ + leaves_of(deque_view(*d).take(i as int)),
                    decreases d@.len() - i,
                {
                    proof {
                        assert(decreases_to!(*d => d@[i as int]));
                        assert(decreases_to!(*self => (*self)->DoubleBubble_0));
                        assert(decreases_to!(*self => d@[i as int]));
                        lemma_leaves_of_push(deque_view(*d).take(i as int), item_view(d@[i as int]));
                        assert(deque_view(*d).take(i + 1) =~= deque_view(*d).take(i as int).push(
                            item_view(d@[i as int]),
                        ));
                    }
                    d[i].collect_leaves(out);
                    i += 1;
                }
                assert(deque_view(*d).take(d@.len() as int) =~= deque_view(*d));
                assert(out@ =~= old(out)@ + leaves(self@));
            },
        }
    }
}

/// How a bubble is shown: a scalar as `scalar_text`, a double bubble as its
/// items in parentheses, separated by `, `.
pub open spec fn tree_text(t: BubbleTree) -> Seq<char>
    decreases t, 1nat,
{
    match t {
        BubbleTree::Leaf(v) => scalar_text(v),
        BubbleTree::Node(s) => seq!['\u{28}'] + join_text(s) + seq!['\u{29}'],
    }
}

/// The items of `s` shown one after another, separated by `, `.
pub open spec fn join_text(s: Seq<BubbleTree>) -> Seq<char>
    decreases s, 0nat,
{
    if s.len() == 0 {
        Seq::empty()
    } else {
        join_text(s.subrange(0, s.len() - 1)) + (if s.len() > 1 {
            seq![',', ' ']
        } else {
            Seq::empty()
        }) + tree_text(s[s.len() - 1])
    }
}

/// How the abyss is shown: its size in brackets, then its items front first.
pub open spec fn stack_text(st: Seq<BubbleTree>) -> Seq<char> {
    seq!['['] + int_text(st.len() as int) + seq![']', ' '] + join_text(st)
}

/// Appends `, ` unless `i` is 0, then the text of `item`.
proof fn lemma_join_step(s: Seq<BubbleTree>, i: int)
    requires
        0 <= i < s.len(),
    ensures
        join_text(s.take(i + 1)) == join_text(s.take(i)) + (if i > 0 {
            seq![',', ' ']
        } else {
            Seq::<char>::empty()
        }) + tree_text(s[i]),
{
    assert(s.take(i + 1).subrange(0, i) =~= s.take(i));
}

impl BubbleItem {
    fn write_text(&self, out: &mut Vec<char>)
        ensures
            final(out)@ == old(out)@ + tree_text(self@),
        decreases self,
    {
        broadcast use lemma_double_view;

        match self {
            BubbleItem::Bubble(v) => push_scalar(*v, out),
            BubbleItem::DoubleBubble(d) => {
                out.push('\u{28}');
                let ghost start = out@;
                let mut i: usize = 0;
                assert(deque_view(*d).take(0) =~= Seq::<BubbleTree>::empty());
                assert(start + join_text(Seq::<BubbleTree>::empty()) =~= start);
                while i < d.len()
                    invariant
                        *self == BubbleItem::DoubleBubble(*d),
                        i <= d@.len(),
                        out@ == start + join_text(deque_view(*d).take(i as int)),
                    decreases d@.len() - i,
                {
                    proof {
                        assert(decreases_to!(*d => d@[i as int]));
                        assert(decreases_to!(*self => (*self)->DoubleBubble_0));
                        assert(decreases_to!(*self => d@[i as int]));
                        lemma_join_step(deque_view(*d), i as int);
                    }
                    if i > 0 {
                        out.push(',');
                        out.push(' ');
                    }
                    d[i].write_text(out);
                    assert(out@ =~= start + join_text(deque_view(*d).take(i + 1)));
                    i += 1;
                }
                out.push('\u{29}');
                assert(deque_view(*d).take(d@.len() as int) =~= deque_view(*d));
                assert(out@ =~= old(out)@ + tree_text(self@));
            },
        }
    }

    /// How this bubble is shown, as `tree_text` says.
    pub fn to_text(&self) -> (r: String)
        ensures
            r@ == tree_text(self@),
    {
        let mut out: Vec<char> = Vec::new();
        self.write_text(&mut out);
        assert(out@ =~= tree_text(self@));
        string_of(&out)
    }
}

impl BubbleStack {
    /// How the abyss is shown, as `stack_text` says.
    pub fn to_text(&self) -> (r: String)
        ensures
            r@ == stack_text(self@),
    {
        let mut out: Vec<char> = Vec::new();
        out.push('[');
        push_digits(self.stack.len() as u64, &mut out);
        out.push(']');
        out.push(' ');
        let ghost start = out@;
        let mut i: usize = 0;
        assert(self@.take(0) =~= Seq::<BubbleTree>::empty());
        assert(start + join_text(Seq::<BubbleTree>::empty()) =~= start);
        while i < self.stack.len()
            invariant
                i <= self@.len(),
                self@.len() == self.stack@.len(),
                out@ == start + join_text(self@.take(i as int)),
            decreases self@.len() - i,
        {
            proof {
                lemma_join_step(self@, i as int);
            }
            if i > 0 {
                out.push(',');
                out.push(' ');
            }
            self.stack[i].write_text(&mut out);
            assert(out@ =~= start + join_text(self@.take(i + 1)));
            i += 1;
        }
        assert(self@.take(self@.len() as int) =~= self@);
        assert(out@ =~= stack_text(self@));
        string_of(&out)
    }
}

} // verus!

pub mod awascii;
pub mod bubblestack;

use std::collections::{HashMap, VecDeque};
use vstd::arithmetic::power2::{lemma2_to64, lemma_pow2_strictly_increases, lemma_pow2_unfold, pow2};
use vstd::prelude::*;
use vstd::std_specs::iter::IteratorSpec;

use self::awascii::{
    awascii, awascii_code, awascii_table, int_text, ord, push_digits, push_scalar, scalar_text,
};
use self::bubblestack::{
    compare_holds, count_of, deque_view, leaves, lemma_double_view, BubbleItem,
    BubbleStack, BubbleTree, Comparison,
};
use crate::errors::{AwawaError, AwawaLoadError, AwawaLoadResult, AwawaResult};

verus! {

broadcast use vstd::std_specs::vecdeque::group_vec_dequeue_axioms, vstd::std_specs::hash::group_hash_axioms;

/// One instruction of the machine.
#[derive(Debug, Clone, Copy, PartialEq, Eq, Structural)]
pub enum Awatism {
    Nop,
    Prn,
    Pr1,
    Red,
    R3d,
    Blo(i8),
    Sbm(u8),
    Pop,
    Dpl,
    Srn(u8),
    Mrg,
    Add,
    Sub,
    Mul,
    Div,
    Cnt,
    Lbl(u8),
    Jmp(u8),
    Eql,
    Lss,
    Gr8,
    Trm,
}

/// The 5-bit opcode of an instruction.
pub open spec fn opcode(a: Awatism) -> u8 {
    match a {
        Awatism::Nop => 0x00,
        Awatism::Prn => 0x01,
        Awatism::Pr1 => 0x02,
        Awatism::Red => 0x03,
        Awatism::R3d => 0x04,
        Awatism::Blo(_) => 0x05,
        Awatism::Sbm(_) => 0x06,
        Awatism::Pop => 0x07,
        Awatism::Dpl => 0x08,
        Awatism::Srn(_) => 0x09,
        Awatism::Mrg => 0x0A,
        Awatism::Add => 0x0B,
        Awatism::Sub => 0x0C,
        Awatism::Mul => 0x0D,
        Awatism::Div => 0x0E,
        Awatism::Cnt => 0x0F,
        Awatism::Lbl(_) => 0x10,
        Awatism::Jmp(_) => 0x11,
        Awatism::Eql => 0x12,
        Awatism::Lss => 0x13,
        Awatism::Gr8 => 0x14,
        Awatism::Trm => 0x1F,
    }
}

impl Awatism {
    /// The opcode of this instruction.
    pub fn discriminant(&self) -> (r: u8)
        ensures
            r == opcode(*self),
    {
        match self {
            Awatism::Nop => 0x00,
            Awatism::Prn => 0x01,
            Awatism::Pr1 => 0x02,
            Awatism::Red => 0x03,
            Awatism::R3d => 0x04,
            Awatism::Blo(_) => 0x05,
            Awatism::Sbm(_) => 0x06,
            Awatism::Pop => 0x07,
            Awatism::Dpl => 0x08,
            Awatism::Srn(_) => 0x09,
            Awatism::Mrg => 0x0A,
            Awatism::Add => 0x0B,
            Awatism::Sub => 0x0C,
            Awatism::Mul => 0x0D,
            Awatism::Div => 0x0E,
            Awatism::Cnt => 0x0F,
            Awatism::Lbl(_) => 0x10,
            Awatism::Jmp(_) => 0x11,
            Awatism::Eql => 0x12,
            Awatism::Lss => 0x13,
            Awatism::Gr8 => 0x14,
            Awatism::Trm => 0x1F,
        }
    }
}

// ---------------------------------------------------------------------------
// Broadcasting arithmetic and merge

/// The scalar operation that `compute_bubbles` broadcasts.
#[derive(Debug, Clone, Copy, PartialEq, Eq, Structural)]
pub enum Operation {
    Add,
    Sub,
    Mul,
    Div,
    Rem,
}

/// The scalar result of `op` on `x` (front) and `y`, in wrapping 32-bit
/// arithmetic with truncated division; meaningless for a zero divisor.
pub open spec fn scalar_op(op: Operation, x: i32, y: i32) -> i32 {
    match op {
        Operation::Add => x.wrapping_add(y),
        Operation::Sub => x.wrapping_sub(y),
        Operation::Mul => x.wrapping_mul(y),
        Operation::Div => match x.checked_div(y) {
            Some(q) => q,
            None => x,
        },
        Operation::Rem => match x.checked_rem(y) {
            Some(q) => q,
            None => 0,
        },
    }
}

/// The operand that element `i` of a broadcast takes from `t`: the scalar
/// itself, or the `i`-th item of a double bubble.
pub open spec fn part(t: BubbleTree, i: int) -> BubbleTree {
    match t {
        BubbleTree::Leaf(_) => t,
        BubbleTree::Node(s) => s[i],
    }
}

/// The number of elements of a broadcast over `a` and `b` that are not both scalars.
pub open spec fn width(a: BubbleTree, b: BubbleTree) -> nat {
    match (a, b) {
        (BubbleTree::Node(s), BubbleTree::Node(t)) => if s.len() <= t.len() {
            s.len()
        } else {
            t.len()
        },
        (BubbleTree::Node(s), BubbleTree::Leaf(_)) => s.len(),
        (BubbleTree::Leaf(_), BubbleTree::Node(t)) => t.len(),
        (BubbleTree::Leaf(_), BubbleTree::Leaf(_)) => 0,
    }
}

pub open spec fn both_leaves(a: BubbleTree, b: BubbleTree) -> bool {
    a is Leaf && b is Leaf
}

/// `op` broadcast over `a` (front) and `b`: scalars combine; a double bubble
/// against a scalar maps over its items; two double bubbles combine item by
/// item up to the shorter length.
pub open spec fn elementwise(op: Operation, a: BubbleTree, b: BubbleTree) -> BubbleTree
    decreases a, b,
{
    if both_leaves(a, b) {
        BubbleTree::Leaf(scalar_op(op, a->Leaf_0, b->Leaf_0))
    } else {
        BubbleTree::Node(
            Seq::new(
                width(a, b),
                |i: int|
                    if 0 <= i < width(a, b) {
                        elementwise(op, part(a, i), part(b, i))
                    } else {
                        BubbleTree::Leaf(0)
                    },
            ),
        )
    }
}

/// Whether the broadcast over `a` and `b` reaches a pair of scalars whose
/// second is zero.
pub open spec fn hits_zero(a: BubbleTree, b: BubbleTree) -> bool
    decreases a, b, width(a, b) + 1,
{
    if both_leaves(a, b) {
        b->Leaf_0 == 0
    } else {
        hits_zero_below(a, b, width(a, b))
    }
}

/// Whether one of the first `n` elements of the broadcast over `a` and `b`
/// reaches a zero divisor.
pub open spec fn hits_zero_below(a: BubbleTree, b: BubbleTree, n: nat) -> bool
    decreases a, b, n,
{
    if n == 0 || n > width(a, b) || both_leaves(a, b) {
        false
    } else {
        hits_zero(part(a, n - 1), part(b, n - 1)) || hits_zero_below(a, b, (n - 1) as nat)
    }
}

proof fn lemma_hits_zero_below_mono(a: BubbleTree, b: BubbleTree, m: nat, n: nat)
    requires
        m <= n <= width(a, b),
        hits_zero_below(a, b, m),
    ensures
        hits_zero_below(a, b, n),
    decreases n - m,
{
    if m < n {
        lemma_hits_zero_below_mono(a, b, m, (n - 1) as nat);
    }
}

/// Whether broadcasting `op` over `a` and `b` divides by zero.
pub open spec fn divides_by_zero(op: Operation, a: BubbleTree, b: BubbleTree) -> bool {
    (op is Div || op is Rem) && hits_zero(a, b)
}

fn scalar(op: Operation, x: i32, y: i32) -> (r: Option<i32>)
    ensures
        r is None <==> ((op is Div || op is Rem) && y == 0),
        r matches Some(v) ==> v == scalar_op(op, x, y),
{
    match op {
        Operation::Add => Some(x.wrapping_add(y)),
        Operation::Sub => Some(x.wrapping_sub(y)),
        Operation::Mul => Some(x.wrapping_mul(y)),
        Operation::Div => {
            if y == 0 {
                None
            } else {
                match x.checked_div(y) {
                    Some(q) => Some(q),
                    None => Some(x),
                }
            }
        },
        Operation::Rem => {
            if y == 0 {
                None
            } else {
                match x.checked_rem(y) {
                    Some(q) => Some(q),
                    None => Some(0),
                }
            }
        },
    }
}

fn part_of(t: &BubbleItem, i: usize) -> (r: &BubbleItem)
    requires
        t is DoubleBubble ==> i < t->DoubleBubble_0@.len(),
    ensures
        t is Bubble ==> *r == *t,
        t is DoubleBubble ==> *r == t->DoubleBubble_0@[i as int],
        r@ == part(t@, i as int),
{
    broadcast use lemma_double_view;

    match t {
        BubbleItem::Bubble(_) => t,
        BubbleItem::DoubleBubble(d) => &d[i],
    }
}

/// Broadcasts `op` over `a` (front) and `b`; `None` exactly when a division
/// or remainder meets a zero divisor.
pub fn compute_bubbles(a: &BubbleItem, b: &BubbleItem, op: Operation) -> (r: Option<BubbleItem>)
    ensures
        r is None <==> divides_by_zero(op, a@, b@),
        r matches Some(x) ==> x@ == elementwise(op, a@, b@),
    decreases a, b,
{
    broadcast use lemma_double_view;

    if let (BubbleItem::Bubble(x), BubbleItem::Bubble(y)) = (a, b) {
        return match scalar(op, *x, *y) {
            Some(v) => Some(BubbleItem::Bubble(v)),
            None => None,
        };
    }
    let n: usize = match (a, b) {
        (BubbleItem::DoubleBubble(s), BubbleItem::DoubleBubble(t)) => if s.len() <= t.len() {
            s.len()
        } else {
            t.len()
        },
        (BubbleItem::DoubleBubble(s), BubbleItem::Bubble(_)) => s.len(),
        (BubbleItem::Bubble(_), BubbleItem::DoubleBubble(t)) => t.len(),
        (BubbleItem::Bubble(_), BubbleItem::Bubble(_)) => 0,
    };
    assert(n == width(a@, b@));
    let mut out: VecDeque<BubbleItem> = VecDeque::new();
    let mut i: usize = 0;
    while i < n
        invariant
            n == width(a@, b@),
            !both_leaves(a@, b@),
            a is DoubleBubble ==> n <= a->DoubleBubble_0@.len(),
            b is DoubleBubble ==> n <= b->DoubleBubble_0@.len(),
            i <= n,
            deque_view(out) =~= Seq::new(
                i as nat,
                |j: int| elementwise(op, part(a@, j), part(b@, j)),
            ),
            (op is Div || op is Rem) ==> !hits_zero_below(a@, b@, i as nat),
        decreases n - i,
    {
        let pa = part_of(a, i);
        let pb = part_of(b, i);
        proof {
            if a is DoubleBubble {
                assert(decreases_to!(*a => (*a)->DoubleBubble_0));
                assert(decreases_to!((*a)->DoubleBubble_0 => (*a)->DoubleBubble_0@[i as int]));
            } else {
                assert(decreases_to!(*b => (*b)->DoubleBubble_0));
                assert(decreases_to!((*b)->DoubleBubble_0 => (*b)->DoubleBubble_0@[i as int]));
            }
        }
        match compute_bubbles(pa, pb, op) {
            Some(x) => {
                let ghost before = out;
                out.push_back(x);
                assert(deque_view(out) =~= deque_view(before).push(x@));
            },
            None => {
                proof {
                    assert(hits_zero_below(a@, b@, (i + 1) as nat));
                    lemma_hits_zero_below_mono(a@, b@, (i + 1) as nat, n as nat);
                }
                return None;
            },
        }
        i += 1;
    }
    assert(!divides_by_zero(op, a@, b@));
    assert(deque_view(out) =~= elementwise(op, a@, b@)->Node_0);
    Some(BubbleItem::DoubleBubble(out))
}

/// What `mrg` pushes for `a` (front) and `b`: the sum of two scalars, or the
/// concatenation of the two with a scalar taken as a one-item sequence.
pub open spec fn merge_tree(a: BubbleTree, b: BubbleTree) -> BubbleTree {
    match (a, b) {
        (BubbleTree::Leaf(x), BubbleTree::Leaf(y)) => BubbleTree::Leaf(x.wrapping_add(y)),
        (BubbleTree::Node(s), BubbleTree::Leaf(_)) => BubbleTree::Node(s.push(b)),
        (BubbleTree::Leaf(_), BubbleTree::Node(t)) => BubbleTree::Node(seq![a] + t),
        (BubbleTree::Node(s), BubbleTree::Node(t)) => BubbleTree::Node(s + t),
    }
}

/// Merges `a` (front) and `b`.
pub fn merge(a: BubbleItem, b: BubbleItem) -> (r: BubbleItem)
    ensures
        r@ == merge_tree(a@, b@),
{
    broadcast use lemma_double_view;

    match (a, b) {
        (BubbleItem::Bubble(va), BubbleItem::Bubble(vb)) => BubbleItem::Bubble(va.wrapping_add(vb)),
        (BubbleItem::DoubleBubble(va), BubbleItem::Bubble(vb)) => {
            let mut va = va;
            let ghost old_va = va;
            va.push_back(BubbleItem::Bubble(vb));
            assert(deque_view(va) =~= deque_view(old_va).push(BubbleTree::Leaf(vb)));
            BubbleItem::DoubleBubble(va)
        },
        (BubbleItem::Bubble(va), BubbleItem::DoubleBubble(vb)) => {
            let mut vb = vb;
            let ghost old_vb = vb;
            vb.push_front(BubbleItem::Bubble(va));
            assert(deque_view(vb) =~= seq![BubbleTree::Leaf(va)] + deque_view(old_vb));
            BubbleItem::DoubleBubble(vb)
        },
        (BubbleItem::DoubleBubble(va), BubbleItem::DoubleBubble(vb)) => {
            let mut va = va;
            let mut vb = vb;
            let ghost old_va = va;
            let ghost old_vb = vb;
            va.append(&mut vb);
            assert(deque_view(va) =~= deque_view(old_va) + deque_view(old_vb));
            BubbleItem::DoubleBubble(va)
        },
    }
}

// ---------------------------------------------------------------------------
// Bitstream codec

pub open spec fn is_a(c: char) -> bool {
    c == 'a' || c == 'A'
}

pub open spec fn is_w(c: char) -> bool {
    c == 'w' || c == 'W'
}

/// What scanning for the next token from `pos` finds.
pub ghost enum TokenScan {
    /// No token is left.
    End,
    /// A token for the bit, and the position after it.
    Bit(nat, nat),
    /// An `a` not followed by `wa`, or a `w` not followed by `a`.
    Bad,
}

/// Scans `s` from `pos` for the next token, skipping every character that
/// cannot start one: `awa` is a 0 bit, `wa` a 1 bit, in either case.
pub open spec fn scan_token(s: Seq<char>, pos: nat) -> TokenScan
    decreases s.len() - pos,
{
    if pos >= s.len() {
        TokenScan::End
    } else if is_a(s[pos as int]) {
        if pos + 2 < s.len() && is_w(s[pos + 1int]) && is_a(s[pos + 2int]) {
            TokenScan::Bit(0, pos + 3)
        } else {
            TokenScan::Bad
        }
    } else if is_w(s[pos as int]) {
        if pos + 1 < s.len() && is_a(s[pos + 1int]) {
            TokenScan::Bit(1, pos + 2)
        } else {
            TokenScan::Bad
        }
    } else {
        scan_token(s, pos + 1)
    }
}

/// The outcome of reading a field of bits.
pub ghost enum BitsRead {
    /// The field's value, most significant bit first, and the position after it.
    Value(nat, nat),
    /// The stream ended before the field's first bit.
    Eof,
    /// A malformed token.
    BadToken,
    /// The stream ended inside the field.
    Truncated,
}

/// Reading bits `r..n` of a field from `pos`, with `acc` the value of bits `0..r`.
pub open spec fn read_loop(s: Seq<char>, pos: nat, n: nat, r: nat, acc: nat) -> BitsRead
    decreases n - r,
{
    if r >= n {
        BitsRead::Value(acc, pos)
    } else {
        match scan_token(s, pos) {
            TokenScan::End => if r == 0 {
                BitsRead::Eof
            } else {
                BitsRead::Truncated
            },
            TokenScan::Bad => BitsRead::BadToken,
            TokenScan::Bit(b, p) => read_loop(s, p, n, r + 1, 2 * acc + b),
        }
    }
}

/// Reading an `n`-bit field of `s` from `pos`.
pub open spec fn read_bits(s: Seq<char>, pos: nat, n: nat) -> BitsRead {
    read_loop(s, pos, n, 0, 0)
}

/// A token stream and the position up to which it has been read.
pub struct AwaStream {
    chars: Vec<char>,
    pos: usize,
}

impl AwaStream {
    /// The whole token stream.
    pub closed spec fn text(&self) -> Seq<char> {
        self.chars@
    }

    /// How many characters have been read.
    pub closed spec fn position(&self) -> nat {
        self.pos as nat
    }

    pub closed spec fn wf(&self) -> bool {
        self.pos <= self.chars@.len()
    }

    /// A stream over the characters of `s`, not yet read.
    pub fn new(s: &str) -> (r: AwaStream)
        ensures
            r.text() == s@,
            r.position() == 0,
            r.wf(),
    {
        AwaStream { chars: chars_of(s), pos: 0 }
    }

    /// The stream over `s`, read again from its start.
    pub fn rewind(&mut self)
        ensures
            final(self).text() == old(self).text(),
            final(self).position() == 0,
            final(self).wf(),
    {
        self.pos = 0;
    }
}

/// The characters of `s`, in order.
pub fn chars_of(s: &str) -> (r: Vec<char>)
    ensures
        r@ == s@,
{
    broadcast use vstd::string::axiom_spec_iter, vstd::string::next_postcondition;

    let mut it = s.chars();
    let mut v: Vec<char> = Vec::new();
    loop
        invariant
            v@ + it.remaining() == s@,
            it.decrease() is Some,
        decreases it.decrease()->0,
    {
        match it.next() {
            Some(c) => {
                v.push(c);
            },
            None => {
                return v;
            },
        }
    }
}

fn char_is_a(c: char) -> (r: bool)
    ensures
        r == is_a(c),
{
    c == 'a' || c == 'A'
}

fn char_is_w(c: char) -> (r: bool)
    ensures
        r == is_w(c),
{
    c == 'w' || c == 'W'
}

/// Reads the next token: `Ok(Some(bit))`, `Ok(None)` at the end of the stream.
fn next_bit(awa_it: &mut AwaStream) -> (r: Result<Option<u8>, AwawaLoadError>)
    requires
        old(awa_it).wf(),
    ensures
        final(awa_it).wf(),
        final(awa_it).text() == old(awa_it).text(),
        match scan_token(old(awa_it).text(), old(awa_it).position()) {
            TokenScan::End => r == Ok::<Option<u8>, AwawaLoadError>(None),
            TokenScan::Bad => r == Err::<Option<u8>, AwawaLoadError>(AwawaLoadError::AwawaParseError),
            TokenScan::Bit(b, p) => b < 2 && r == Ok::<Option<u8>, AwawaLoadError>(Some(b as u8))
                && final(awa_it).position() == p,
        },
{
    let ghost s = awa_it.chars@;
    let ghost start = awa_it.pos as nat;
    let len = awa_it.chars.len();
    while awa_it.pos < len
        invariant
            awa_it.chars@ == s,
            s == old(awa_it).chars@,
            start == old(awa_it).pos,
            len == s.len(),
            awa_it.pos <= len,
            scan_token(s, start) == scan_token(s, awa_it.pos as nat),
        decreases len - awa_it.pos,
    {
        let c = awa_it.chars[awa_it.pos];
        if char_is_a(c) {
            if len - awa_it.pos > 2 && char_is_w(awa_it.chars[awa_it.pos + 1]) && char_is_a(
                awa_it.chars[awa_it.pos + 2],
            ) {
                awa_it.pos = awa_it.pos + 3;
                return Ok(Some(0));
            }
            return Err(AwawaLoadError::AwawaParseError);
        } else if char_is_w(c) {
            if len - awa_it.pos > 1 && char_is_a(awa_it.chars[awa_it.pos + 1]) {
                awa_it.pos = awa_it.pos + 2;
                return Ok(Some(1));
            }
            return Err(AwawaLoadError::AwawaParseError);
        }
        awa_it.pos = awa_it.pos + 1;
    }
    Ok(None)
}

/// Reads an `n`-bit field, most significant bit first: `Ok(None)` when the
/// stream ends before its first bit.
pub fn read_n(awa_it: &mut AwaStream, n: usize) -> (r: Result<Option<u8>, AwawaLoadError>)
    requires
        n <= 8,
        old(awa_it).wf(),
    ensures
        final(awa_it).wf(),
        final(awa_it).text() == old(awa_it).text(),
        match read_bits(old(awa_it).text(), old(awa_it).position(), n as nat) {
            BitsRead::Value(v, p) => r == Ok::<Option<u8>, AwawaLoadError>(Some(v as u8))
                && v < 256 && final(awa_it).position() == p,
            BitsRead::Eof => r == Ok::<Option<u8>, AwawaLoadError>(None),
            BitsRead::BadToken => r == Err::<Option<u8>, AwawaLoadError>(
                AwawaLoadError::AwawaParseError,
            ),
            BitsRead::Truncated => r == Err::<Option<u8>, AwawaLoadError>(
                AwawaLoadError::MalformedAwatismError,
            ),
        },
{
    let ghost s = awa_it.text();
    let ghost start = awa_it.position();
    let mut r: usize = 0;
    let mut res: u32 = 0;
    proof {
        lemma2_to64();
    }
    while r < n
        invariant
            awa_it.wf(),
            awa_it.text() == s,
            s == old(awa_it).text(),
            start == old(awa_it).position(),
            r <= n <= 8,
            res < pow2(r as nat),
            pow2(8) == 256,
            read_bits(s, start, n as nat) == read_loop(s, awa_it.position(), n as nat, r as nat, res as nat),
        decreases n - r,
    {
        proof {
            lemma_pow2_unfold((r + 1) as nat);
            if r + 1 < 8 {
                lemma_pow2_strictly_increases((r + 1) as nat, 8);
            }
        }
        match next_bit(awa_it) {
            Err(e) => return Err(e),
            Ok(None) => {
                if r == 0 {
                    return Ok(None);
                }
                return Err(AwawaLoadError::MalformedAwatismError);
            },
            Ok(Some(b)) => {
                res = res * 2 + b as u32;
                r += 1;
            },
        }
    }
    proof {
        if r < 8 {
            lemma_pow2_strictly_increases(r as nat, 8);
        }
    }
    Ok(Some(res as u8))
}

/// Reads an `n`-bit operand, which must be there.
pub fn read_n_arg(awa_it: &mut AwaStream, n: usize) -> (r: Result<u8, AwawaLoadError>)
    requires
        n <= 8,
        old(awa_it).wf(),
    ensures
        final(awa_it).wf(),
        final(awa_it).text() == old(awa_it).text(),
        match read_bits(old(awa_it).text(), old(awa_it).position(), n as nat) {
            BitsRead::Value(v, p) => r == Ok::<u8, AwawaLoadError>(v as u8) && v < 256
                && final(awa_it).position() == p,
            BitsRead::BadToken => r == Err::<u8, AwawaLoadError>(AwawaLoadError::AwawaParseError),
            _ => r == Err::<u8, AwawaLoadError>(AwawaLoadError::MalformedAwatismError),
        },
{
    match read_n(awa_it, n)? {
        None => Err(AwawaLoadError::MalformedAwatismError),
        Some(val) => Ok(val),
    }
}

pub proof fn lemma_scan_advances(s: Seq<char>, pos: nat)
    requires
        pos <= s.len(),
    ensures
        scan_token(s, pos) matches TokenScan::Bit(b, p) ==> b < 2 && pos + 2 <= p <= s.len(),
    decreases s.len() - pos,
{
    if pos < s.len() && !is_a(s[pos as int]) && !is_w(s[pos as int]) {
        lemma_scan_advances(s, pos + 1);
    }
}

pub proof fn lemma_read_advances(s: Seq<char>, pos: nat, n: nat, r: nat, acc: nat)
    requires
        pos <= s.len(),
        r <= n,
    ensures
        read_loop(s, pos, n, r, acc) matches BitsRead::Value(v, p) ==> pos + 2 * (n - r) <= p
            <= s.len(),
    decreases n - r,
{
    if r < n {
        lemma_scan_advances(s, pos);
        if let TokenScan::Bit(b, p) = scan_token(s, pos) {
            lemma_read_advances(s, p, n, r + 1, 2 * acc + b);
        }
    }
}

// ---------------------------------------------------------------------------
// Decoding programs

pub open spec fn is_opcode(code: nat) -> bool {
    code <= 0x14 || code == 0x1F
}

/// How many operand bits follow the opcode.
pub open spec fn operand_width(code: nat) -> nat {
    if code == 0x05 {
        8
    } else if code == 0x06 || code == 0x09 || code == 0x10 || code == 0x11 {
        5
    } else {
        0
    }
}

/// The instruction with opcode `code` and operand `arg`.
pub open spec fn build_awatism(code: nat, arg: nat) -> Awatism {
    if code == 0x00 {
        Awatism::Nop
    } else if code == 0x01 {
        Awatism::Prn
    } else if code == 0x02 {
        Awatism::Pr1
    } else if code == 0x03 {
        Awatism::Red
    } else if code == 0x04 {
        Awatism::R3d
    } else if code == 0x05 {
        Awatism::Blo(arg as u8 as i8)
    } else if code == 0x06 {
        Awatism::Sbm(arg as u8)
    } else if code == 0x07 {
        Awatism::Pop
    } else if code == 0x08 {
        Awatism::Dpl
    } else if code == 0x09 {
        Awatism::Srn(arg as u8)
    } else if code == 0x0A {
        Awatism::Mrg
    } else if code == 0x0B {
        Awatism::Add
    } else if code == 0x0C {
        Awatism::Sub
    } else if code == 0x0D {
        Awatism::Mul
    } else if code == 0x0E {
        Awatism::Div
    } else if code == 0x0F {
        Awatism::Cnt
    } else if code == 0x10 {
        Awatism::Lbl(arg as u8)
    } else if code == 0x11 {
        Awatism::Jmp(arg as u8)
    } else if code == 0x12 {
        Awatism::Eql
    } else if code == 0x13 {
        Awatism::Lss
    } else if code == 0x14 {
        Awatism::Gr8
    } else {
        Awatism::Trm
    }
}

/// The outcome of decoding the operand of one instruction.
pub ghost enum Decoded {
    /// The instruction and the position after it.
    Instr(Awatism, nat),
    Failed(AwawaLoadError),
}

/// Decodes the instruction with opcode `code`, whose operand starts at `pos`.
pub open spec fn decode_instr(s: Seq<char>, pos: nat, code: nat) -> Decoded {
    if !is_opcode(code) {
        Decoded::Failed(AwawaLoadError::UnknownAwatismError(code as u8))
    } else if operand_width(code) == 0 {
        Decoded::Instr(build_awatism(code, 0), pos)
    } else {
        match read_bits(s, pos, operand_width(code)) {
            BitsRead::Value(v, p) => Decoded::Instr(build_awatism(code, v), p),
            BitsRead::BadToken => Decoded::Failed(AwawaLoadError::AwawaParseError),
            _ => Decoded::Failed(AwawaLoadError::MalformedAwatismError),
        }
    }
}

/// The instructions decoded from `pos` on, and the error that stopped decoding, if any.
pub open spec fn decode_from(s: Seq<char>, pos: nat) -> (Seq<Awatism>, Option<AwawaLoadError>)
    decreases s.len() - pos,
{
    match read_bits(s, pos, 5) {
        BitsRead::Eof => (Seq::empty(), None),
        BitsRead::BadToken => (Seq::empty(), Some(AwawaLoadError::AwawaParseError)),
        BitsRead::Truncated => (Seq::empty(), Some(AwawaLoadError::MalformedAwatismError)),
        BitsRead::Value(code, p) => match decode_instr(s, p, code) {
            Decoded::Failed(e) => (Seq::empty(), Some(e)),
            Decoded::Instr(a, q) => if pos < q <= s.len() {
                (seq![a] + decode_from(s, q).0, decode_from(s, q).1)
            } else {
                (seq![a], None)
            },
        },
    }
}

/// What loading the token stream `s` yields: the program decoded after the
/// initial 0 bit, and the error that stopped it, if any.
pub open spec fn load_spec(s: Seq<char>) -> (Seq<Awatism>, Option<AwawaLoadError>) {
    match read_bits(s, 0, 1) {
        BitsRead::Value(b, p) => if b == 0 {
            decode_from(s, p)
        } else {
            (Seq::empty(), Some(AwawaLoadError::MissingInitialAwaError))
        },
        _ => (Seq::empty(), Some(AwawaLoadError::MissingInitialAwaError)),
    }
}

/// The label table of a program: each `lbl` binds its id to its index; the
/// last binding of an id wins.
pub open spec fn labels_of(p: Seq<Awatism>) -> Map<u8, usize>
    decreases p.len(),
{
    if p.len() == 0 {
        Map::empty()
    } else {
        let m = labels_of(p.drop_last());
        match p.last() {
            Awatism::Lbl(l) => m.insert(l, (p.len() - 1) as usize),
            _ => m,
        }
    }
}

proof fn lemma_labels_in_range(p: Seq<Awatism>)
    requires
        p.len() <= usize::MAX,
    ensures
        forall|l: u8| #[trigger] labels_of(p).contains_key(l) ==> labels_of(p)[l] < p.len(),
    decreases p.len(),
{
    if p.len() > 0 {
        lemma_labels_in_range(p.drop_last());
        let m = labels_of(p.drop_last());
        assert forall|l: u8| #[trigger] labels_of(p).contains_key(l) implies labels_of(p)[l]
            < p.len() by {
            if let Awatism::Lbl(k) = p.last() {
                if k != l {
                    assert(m.contains_key(l));
                }
            } else {
                assert(m.contains_key(l));
            }
        }
    }
}

/// The machine: a token stream, the program loaded from it, the bubble abyss,
/// the instruction pointer and the label table.
pub struct AwaCPU {
    awa_it: AwaStream,
    bubble_abyss: BubbleStack,
    awatism_cache: Vec<Awatism>,
    ip: usize,
    verbose: u8,
    labels: HashMap<u8, usize>,
}

impl AwaCPU {
    pub closed spec fn text(&self) -> Seq<char> {
        self.awa_it.text()
    }

    pub closed spec fn program(&self) -> Seq<Awatism> {
        self.awatism_cache@
    }

    pub closed spec fn abyss(&self) -> Seq<BubbleTree> {
        self.bubble_abyss@
    }

    pub closed spec fn ip_spec(&self) -> nat {
        self.ip as nat
    }

    pub closed spec fn labels_spec(&self) -> Map<u8, usize> {
        self.labels@
    }

    /// How much the host prints while running, from 0 to 3.
    pub closed spec fn verbosity(&self) -> u8 {
        self.verbose
    }

    /// The state every public operation keeps: the label table is the
    /// program's, and the program is short enough for the pointer to step past it.
    pub closed spec fn wf(&self) -> bool {
        &&& self.awa_it.wf()
        &&& self.labels@ == labels_of(self.awatism_cache@)
        &&& self.awatism_cache@.len() * 10 <= self.awa_it.text().len()
    }

    /// In every well-formed state the label table is the program's, and every
    /// label points into the program.
    pub proof fn lemma_wf_labels(&self)
        requires
            self.wf(),
        ensures
            self.labels_spec() == labels_of(self.program()),
            forall|l: u8| #[trigger]
                self.labels_spec().contains_key(l) ==> self.labels_spec()[l] < self.program().len(),
    {
        assert(self.awatism_cache@.len() == self.awatism_cache.len());
        lemma_labels_in_range(self.awatism_cache@);
    }

    /// A machine over the token stream `awa`, with nothing loaded yet.
    pub fn new(awa: &str, verbose: u8) -> (r: AwaCPU)
        ensures
            r.wf(),
            r.text() == awa@,
            r.program() == Seq::<Awatism>::empty(),
            r.abyss() == Seq::<BubbleTree>::empty(),
            r.ip_spec() == 0,
            r.verbosity() == verbose,
    {
        AwaCPU {
            awa_it: AwaStream::new(awa),
            bubble_abyss: BubbleStack::new(),
            awatism_cache: Vec::new(),
            ip: 0,
            verbose,
            labels: HashMap::new(),
        }
    }

    pub fn get_ip(&self) -> (r: usize)
        ensures
            r == self.ip_spec(),
    {
        self.ip
    }

    pub fn get_verbose(&self) -> (r: u8)
        ensures
            r == self.verbosity(),
    {
        self.verbose
    }

    pub fn get_program(&self) -> (r: &Vec<Awatism>)
        ensures
            r@ == self.program(),
    {
        &self.awatism_cache
    }

    pub fn get_bubble_abyss(&self) -> (r: &BubbleStack)
        ensures
            r@ == self.abyss(),
    {
        &self.bubble_abyss
    }

    /// Decodes the instruction with opcode `awatism`, reading its operand.
    fn fetch_awatism(&mut self, awatism: u8) -> (r: Result<Awatism, AwawaLoadError>)
        requires
            old(self).awa_it.wf(),
        ensures
            final(self).awa_it.wf(),
            final(self).awa_it.text() == old(self).awa_it.text(),
            final(self).awatism_cache == old(self).awatism_cache,
            final(self).labels == old(self).labels,
            final(self).bubble_abyss == old(self).bubble_abyss,
            final(self).ip == old(self).ip,
            final(self).verbose == old(self).verbose,
            match decode_instr(old(self).awa_it.text(), old(self).awa_it.position(), awatism as nat) {
                Decoded::Instr(a, p) => r == Ok::<Awatism, AwawaLoadError>(a)
                    && final(self).awa_it.position() == p,
                Decoded::Failed(e) => r == Err::<Awatism, AwawaLoadError>(e),
            },
    {
        match awatism {
            0x0 => Ok(Awatism::Nop),
            0x1 => Ok(Awatism::Prn),
            0x2 => Ok(Awatism::Pr1),
            0x3 => Ok(Awatism::Red),
            0x4 => Ok(Awatism::R3d),
            0x5 => {
                let val = read_n_arg(&mut self.awa_it, 8)?;
                Ok(Awatism::Blo(val as i8))
            },
            0x6 => {
                let val = read_n_arg(&mut self.awa_it, 5)?;
                Ok(Awatism::Sbm(val))
            },
            0x7 => Ok(Awatism::Pop),
            0x8 => Ok(Awatism::Dpl),
            0x9 => {
                let val = read_n_arg(&mut self.awa_it, 5)?;
                Ok(Awatism::Srn(val))
            },
            0x0A => Ok(Awatism::Mrg),
            0x0B => Ok(Awatism::Add),
            0x0C => Ok(Awatism::Sub),
            0x0D => Ok(Awatism::Mul),
            0x0E => Ok(Awatism::Div),
            0x0F => Ok(Awatism::Cnt),
            0x10 => {
                let val = read_n_arg(&mut self.awa_it, 5)?;
                Ok(Awatism::Lbl(val))
            },
            0x11 => {
                let val = read_n_arg(&mut self.awa_it, 5)?;
                Ok(Awatism::Jmp(val))
            },
            0x12 => Ok(Awatism::Eql),
            0x13 => Ok(Awatism::Lss),
            0x14 => Ok(Awatism::Gr8),
            0x1F => Ok(Awatism::Trm),
            a => Err(AwawaLoadError::UnknownAwatismError(a)),
        }
    }

    /// Loads the program from the token stream: checks the initial 0 bit,
    /// then decodes instructions until the stream ends, recording each
    /// `lbl`'s index. On an error the instructions decoded before it stay.
    pub fn load_program(&mut self) -> (r: AwawaLoadResult)
        requires
            old(self).wf(),
        ensures
            final(self).wf(),
            final(self).text() == old(self).text(),
            final(self).abyss() == old(self).abyss(),
            final(self).ip_spec() == old(self).ip_spec(),
            final(self).verbosity() == old(self).verbosity(),
            final(self).program() == load_spec(old(self).text()).0,
            final(self).labels_spec() == labels_of(final(self).program()),
            r is Ok <==> load_spec(old(self).text()).1 is None,
            r matches Err(e) ==> load_spec(old(self).text()).1 == Some(e),
    {
        self.awa_it.rewind();
        self.awatism_cache = Vec::new();
        self.labels = HashMap::new();
        let ghost s = self.awa_it.text();
        let preamble = match read_n(&mut self.awa_it, 1) {
            Ok(Some(x)) => x,
            _ => 1,
        };
        proof {
            lemma_read_advances(s, 0, 1, 0, 0);
        }
        if preamble != 0 {
            return Err(AwawaLoadError::MissingInitialAwaError);
        }
        let mut ip: usize = 0;
        loop
            invariant
                self.awa_it.wf(),
                self.awa_it.text() == s,
                s == old(self).text(),
                self.bubble_abyss == old(self).bubble_abyss,
                self.ip == old(self).ip,
                self.verbose == old(self).verbose,
                self.awatism_cache@.len() == ip,
                ip * 10 <= self.awa_it.position(),
                self.labels@ == labels_of(self.awatism_cache@),
                load_spec(s) == (
                    self.awatism_cache@ + decode_from(s, self.awa_it.position()).0,
                    decode_from(s, self.awa_it.position()).1,
                ),
            decreases s.len() - self.awa_it.position(),
        {
            let ghost pos = self.awa_it.position();
            let ghost cache = self.awatism_cache@;
            proof {
                lemma_read_advances(s, pos, 5, 0, 0);
            }
            let code = match read_n(&mut self.awa_it, 5) {
                Err(e) => {
                    assert(self.awatism_cache@ + Seq::<Awatism>::empty() =~= self.awatism_cache@);
                    return Err(e);
                },
                Ok(None) => {
                    assert(self.awatism_cache@ + Seq::<Awatism>::empty() =~= self.awatism_cache@);
                    return Ok(());
                },
                Ok(Some(a)) => a,
            };
            let ghost p = self.awa_it.position();
            proof {
                if operand_width(code as nat) > 0 {
                    lemma_read_advances(s, p, operand_width(code as nat), 0, 0);
                }
            }
            let awatism = match self.fetch_awatism(code) {
                Err(e) => {
                    assert(self.awatism_cache@ + Seq::<Awatism>::empty() =~= self.awatism_cache@);
                    return Err(e);
                },
                Ok(a) => a,
            };
            if let Awatism::Lbl(lbl) = awatism {
                self.labels.insert(lbl, ip);
            }
            self.awatism_cache.push(awatism);
            proof {
                assert(self.awatism_cache@.drop_last() =~= cache);
                assert(cache + decode_from(s, pos).0 =~= self.awatism_cache@ + decode_from(
                    s,
                    self.awa_it.position(),
                ).0);
            }
            ip += 1;
        }
    }
}

// ---------------------------------------------------------------------------
// Text in and out

/// Relies on std's `FromIterator<char>` for `String`: the string holds the
/// characters in order.
#[verifier::external_body]
pub(crate) fn string_of(chars: &Vec<char>) -> (r: String)
    ensures
        r@ == chars@,
{
    chars.iter().collect()
}

pub open spec fn valid_code(v: i32) -> bool {
    0 <= v < 64
}

/// The AwaSCII characters of codes that are all valid.
pub open spec fn codes_text(vs: Seq<i32>) -> Seq<char> {
    vs.map_values(|v: i32| awascii_table()[v as int])
}

/// The characters that `prn` prints for `bubble`: each scalar as AwaSCII.
pub fn print_bubble_awascii(bubble: &BubbleItem) -> (r: Result<Vec<char>, AwawaError>)
    ensures
        (forall|i: int| 0 <= i < leaves(bubble@).len() ==> valid_code(#[trigger] leaves(bubble@)[i]))
            ==> (r matches Ok(t) && t@ == codes_text(leaves(bubble@))),
        r matches Err(e) ==> exists|i: int|
            0 <= i < leaves(bubble@).len() && !valid_code(#[trigger] leaves(bubble@)[i])
                && e == AwawaError::InvalidAwasciiCodeError(leaves(bubble@)[i]),
        r is Ok ==> forall|i: int|
            0 <= i < leaves(bubble@).len() ==> valid_code(#[trigger] leaves(bubble@)[i]),
{
    let mut vals: Vec<i32> = Vec::new();
    bubble.collect_leaves(&mut vals);
    assert(vals@ =~= leaves(bubble@));
    let mut out: Vec<char> = Vec::new();
    let mut i: usize = 0;
    while i < vals.len()
        invariant
            vals@ == leaves(bubble@),
            i <= vals@.len(),
            forall|j: int| 0 <= j < i ==> valid_code(#[trigger] vals@[j]),
            out@ =~= codes_text(vals@.take(i as int)),
        decreases vals@.len() - i,
    {
        let c = match awascii(vals[i]) {
            Ok(c) => c,
            Err(e) => return Err(e),
        };
        out.push(c);
        assert(codes_text(vals@.take(i + 1)) =~= codes_text(vals@.take(i as int)).push(c));
        i += 1;
    }
    assert(vals@.take(i as int) =~= vals@);
    Ok(out)
}

/// The numbers that `pr1` prints for `bubble`: its scalars in order.
pub fn print_bubble(bubble: &BubbleItem) -> (r: Vec<i32>)
    ensures
        r@ == leaves(bubble@),
{
    let mut vals: Vec<i32> = Vec::new();
    bubble.collect_leaves(&mut vals);
    assert(vals@ =~= leaves(bubble@));
    vals
}

/// The bubbles that `red` makes of a line: the codes of its characters
/// that have one, in order.
pub open spec fn line_bubbles(cs: Seq<char>) -> Seq<BubbleTree>
    decreases cs.len(),
{
    if cs.len() == 0 {
        Seq::empty()
    } else {
        let rest = line_bubbles(cs.drop_last());
        match awascii_code(cs.last()) {
            Some(c) => rest.push(BubbleTree::Leaf(c)),
            None => rest,
        }
    }
}

/// The double bubble that `red` pushes for `line`.
pub fn line_to_bubble(line: &str) -> (r: BubbleItem)
    ensures
        r@ == BubbleTree::Node(line_bubbles(line@)),
{
    broadcast use lemma_double_view;

    let cs = chars_of(line);
    let mut out: VecDeque<BubbleItem> = VecDeque::new();
    let mut i: usize = 0;
    while i < cs.len()
        invariant
            cs@ == line@,
            i <= cs@.len(),
            deque_view(out) == line_bubbles(cs@.take(i as int)),
        decreases cs@.len() - i,
    {
        let ghost before = out;
        assert(cs@.take(i + 1).drop_last() =~= cs@.take(i as int));
        match ord(cs[i]) {
            Some(x) => {
                out.push_back(BubbleItem::Bubble(x));
                assert(deque_view(out) =~= deque_view(before).push(BubbleTree::Leaf(x)));
            },
            None => {},
        }
        i += 1;
    }
    assert(cs@.take(i as int) =~= cs@);
    BubbleItem::DoubleBubble(out)
}

pub open spec fn is_digit(c: char) -> bool {
    '0' <= c && c <= '9'
}

/// The end of the run of decimal digits that starts at `i`.
pub open spec fn digit_run_end(cs: Seq<char>, i: nat) -> nat
    decreases cs.len() - i,
{
    if i < cs.len() && is_digit(cs[i as int]) {
        digit_run_end(cs, i + 1)
    } else {
        i
    }
}

/// The leading decimal digits of `cs`.
pub open spec fn leading_digits(cs: Seq<char>) -> Seq<char> {
    cs.take(digit_run_end(cs, 0) as int)
}

/// The value of a string of decimal digits.
pub open spec fn decimal_value(ds: Seq<char>) -> nat
    decreases ds.len(),
{
    if ds.len() == 0 {
        0
    } else {
        decimal_value(ds.drop_last()) * 10 + ((ds.last() as nat) - ('0' as nat)) as nat
    }
}

/// Whether `r3d` reads a number from `cs`: its leading digits are there and
/// their value fits a 32-bit signed integer.
pub open spec fn reads_number(cs: Seq<char>) -> bool {
    leading_digits(cs).len() > 0 && decimal_value(leading_digits(cs)) <= i32::MAX
}

/// The number that `r3d` reads from `line`: the value of its leading digits.
pub fn parse_number(line: &str) -> (r: Result<i32, AwawaError>)
    ensures
        reads_number(line@) ==> r == Ok::<i32, AwawaError>(
            decimal_value(leading_digits(line@)) as i32,
        ),
        !reads_number(line@) ==> (r matches Err(AwawaError::NotANumberError(s)) && s@
            == leading_digits(line@)),
{
    let cs = chars_of(line);
    let mut digits: Vec<char> = Vec::new();
    let mut value: i64 = 0;
    let mut overflow = false;
    let mut i: usize = 0;
    while i < cs.len() && '0' <= cs[i] && cs[i] <= '9'
        invariant
            cs@ == line@,
            i <= cs@.len(),
            digit_run_end(cs@, 0) == digit_run_end(cs@, i as nat),
            digits@ == cs@.take(i as int),
            !overflow ==> value == decimal_value(digits@) && value <= i32::MAX,
            overflow ==> decimal_value(digits@) > i32::MAX,
        decreases cs@.len() - i,
    {
        let c = cs[i];
        let ghost before = digits@;
        digits.push(c);
        assert(digits@.drop_last() =~= before);
        if !overflow {
            let d = (c as u32 - '0' as u32) as i64;
            value = value * 10 + d;
            if value > i32::MAX as i64 {
                overflow = true;
            }
        }
        assert(digits@ =~= cs@.take(i + 1));
        i += 1;
    }
    assert(digit_run_end(cs@, i as nat) == i);
    if i == 0 || overflow {
        return Err(AwawaError::NotANumberError(string_of(&digits)));
    }
    Ok(value as i32)
}

// ---------------------------------------------------------------------------
// Semantics of the instructions on the bubble abyss; `None` is an error.

pub open spec fn pop_spec(st: Seq<BubbleTree>) -> Option<Seq<BubbleTree>> {
    if st.len() == 0 {
        None
    } else {
        Some(
            match st[0] {
                BubbleTree::Leaf(_) => st.drop_first(),
                BubbleTree::Node(s) => s + st.drop_first(),
            },
        )
    }
}

pub open spec fn dpl_spec(st: Seq<BubbleTree>) -> Option<Seq<BubbleTree>> {
    if st.len() == 0 {
        None
    } else {
        Some(seq![st[0]] + st)
    }
}

pub open spec fn srn_spec(st: Seq<BubbleTree>, n: nat) -> Option<Seq<BubbleTree>> {
    if n > st.len() {
        None
    } else {
        Some(seq![BubbleTree::Node(st.take(n as int))] + st.skip(n as int))
    }
}

pub open spec fn sbm_spec(st: Seq<BubbleTree>, n: nat) -> Option<Seq<BubbleTree>> {
    if st.len() == 0 {
        None
    } else if n == 0 {
        Some(st.drop_first().push(st[0]))
    } else if n < st.len() {
        Some(st.drop_first().insert(n as int, st[0]))
    } else {
        None
    }
}

pub open spec fn cnt_spec(st: Seq<BubbleTree>) -> Option<Seq<BubbleTree>> {
    if st.len() == 0 {
        None
    } else {
        Some(seq![BubbleTree::Leaf(count_of(st[0]))] + st)
    }
}

pub open spec fn arith_spec(st: Seq<BubbleTree>, op: Operation) -> Option<Seq<BubbleTree>> {
    if st.len() < 2 || divides_by_zero(op, st[0], st[1]) {
        None
    } else {
        Some(seq![elementwise(op, st[0], st[1])] + st.skip(2))
    }
}

/// `div` pushes the quotient and the remainder as one double bubble, quotient first.
pub open spec fn div_spec(st: Seq<BubbleTree>) -> Option<Seq<BubbleTree>> {
    if st.len() < 2 || divides_by_zero(Operation::Div, st[0], st[1]) {
        None
    } else {
        Some(
            seq![
                BubbleTree::Node(
                    seq![
                        elementwise(Operation::Div, st[0], st[1]),
                        elementwise(Operation::Rem, st[0], st[1]),
                    ],
                ),
            ] + st.skip(2),
        )
    }
}

pub open spec fn mrg_spec(st: Seq<BubbleTree>) -> Option<Seq<BubbleTree>> {
    if st.len() < 2 {
        None
    } else {
        Some(seq![merge_tree(st[0], st[1])] + st.skip(2))
    }
}

pub open spec fn prints_awascii(t: BubbleTree) -> bool {
    forall|i: int| 0 <= i < leaves(t).len() ==> valid_code(#[trigger] leaves(t)[i])
}

pub open spec fn prn_spec(st: Seq<BubbleTree>) -> Option<Seq<BubbleTree>> {
    if st.len() == 0 || !prints_awascii(st[0]) {
        None
    } else {
        Some(st.drop_first())
    }
}

pub open spec fn pr1_spec(st: Seq<BubbleTree>) -> Option<Seq<BubbleTree>> {
    if st.len() == 0 {
        None
    } else {
        Some(st.drop_first())
    }
}

pub open spec fn red_spec(st: Seq<BubbleTree>, line: Option<Seq<char>>) -> Option<Seq<BubbleTree>> {
    match line {
        None => None,
        Some(cs) => Some(seq![BubbleTree::Node(line_bubbles(cs))] + st),
    }
}

pub open spec fn r3d_spec(st: Seq<BubbleTree>, line: Option<Seq<char>>) -> Option<Seq<BubbleTree>> {
    match line {
        None => None,
        Some(cs) => if reads_number(cs) {
            Some(seq![BubbleTree::Leaf(decimal_value(leading_digits(cs)) as i32)] + st)
        } else {
            None
        },
    }
}

/// What a comparison instruction finds: `None` with fewer than two items.
pub open spec fn cmp_spec(st: Seq<BubbleTree>, cmp: Comparison) -> Option<bool> {
    if st.len() < 2 {
        None
    } else {
        Some(
            match (st[0], st[1]) {
                (BubbleTree::Leaf(x), BubbleTree::Leaf(y)) => compare_holds(cmp, x, y),
                _ => false,
            },
        )
    }
}

pub open spec fn comparison_of(a: Awatism) -> Comparison {
    match a {
        Awatism::Lss => Comparison::Less,
        Awatism::Gr8 => Comparison::Greater,
        _ => Comparison::Equal,
    }
}

pub open spec fn is_comparison(a: Awatism) -> bool {
    a is Eql || a is Lss || a is Gr8
}

/// The abyss after `a` runs on `st`, with `line` the input line offered to it.
pub open spec fn step_abyss(a: Awatism, st: Seq<BubbleTree>, line: Option<Seq<char>>) -> Option<
    Seq<BubbleTree>,
> {
    match a {
        Awatism::Prn => prn_spec(st),
        Awatism::Pr1 => pr1_spec(st),
        Awatism::Red => red_spec(st, line),
        Awatism::R3d => r3d_spec(st, line),
        Awatism::Blo(v) => Some(seq![BubbleTree::Leaf(v as i32)] + st),
        Awatism::Sbm(n) => sbm_spec(st, n as nat),
        Awatism::Pop => pop_spec(st),
        Awatism::Dpl => dpl_spec(st),
        Awatism::Srn(n) => srn_spec(st, n as nat),
        Awatism::Mrg => mrg_spec(st),
        Awatism::Add => arith_spec(st, Operation::Add),
        Awatism::Sub => arith_spec(st, Operation::Sub),
        Awatism::Mul => arith_spec(st, Operation::Mul),
        Awatism::Div => div_spec(st),
        Awatism::Cnt => cnt_spec(st),
        Awatism::Eql | Awatism::Lss | Awatism::Gr8 => if cmp_spec(st, comparison_of(a)) is Some {
            Some(st)
        } else {
            None
        },
        _ => Some(st),
    }
}

/// Whether `a` runs without error from abyss `st` with label table `labels`.
pub open spec fn step_ok(
    a: Awatism,
    st: Seq<BubbleTree>,
    line: Option<Seq<char>>,
    labels: Map<u8, usize>,
) -> bool {
    &&& !(a is Trm)
    &&& step_abyss(a, st, line) is Some
    &&& (a matches Awatism::Jmp(l) ==> labels.contains_key(l))
}

/// The instruction pointer after `a` ran without error at `ip`: the target
/// of a jump; past the next instruction after a comparison that failed; else the next.
pub open spec fn next_ip(a: Awatism, ip: nat, st: Seq<BubbleTree>, labels: Map<u8, usize>) -> nat {
    match a {
        Awatism::Jmp(l) => labels[l] as nat,
        Awatism::Eql | Awatism::Lss | Awatism::Gr8 => if cmp_spec(st, comparison_of(a)) == Some(
            false,
        ) {
            ip + 2
        } else {
            ip + 1
        },
        _ => ip + 1,
    }
}

pub open spec fn line_view(line: Option<&str>) -> Option<Seq<char>> {
    match line {
        Some(l) => Some(l@),
        None => None,
    }
}

/// What a step hands to the host to print.
#[derive(Debug)]
pub enum Output {
    Nothing,
    /// Characters, from `prn`.
    Text(Vec<char>),
    /// Numbers, each followed by a space, from `pr1`.
    Numbers(Vec<i32>),
}

impl AwaCPU {
    /// Whether `self` and `other` hold the same stream, program, label table
    /// and verbosity.
    pub open spec fn same_program(&self, other: &AwaCPU) -> bool {
        &&& self.text() == other.text()
        &&& self.program() == other.program()
        &&& self.labels_spec() == other.labels_spec()
        &&& self.verbosity() == other.verbosity()
    }

    /// Whether `self` differs from `other` in its abyss alone.
    pub open spec fn abyss_step(&self, other: &AwaCPU) -> bool {
        &&& self.wf()
        &&& self.same_program(other)
        &&& self.ip_spec() == other.ip_spec()
    }

    pub fn nop(&mut self) -> (r: AwawaResult)
        requires
            old(self).wf(),
        ensures
            final(self).abyss_step(old(self)),
            final(self).abyss() == old(self).abyss(),
            r is Ok,
    {
        Ok(())
    }

    /// Pops the front item and returns its scalars as AwaSCII characters.
    pub fn prn(&mut self) -> (r: Result<Vec<char>, AwawaError>)
        requires
            old(self).wf(),
        ensures
            final(self).abyss_step(old(self)),
            old(self).abyss().len() == 0 ==> (r matches Err(AwawaError::BubbleAbyssEmpty)
                && final(self).abyss() == old(self).abyss()),
            old(self).abyss().len() > 0 ==> final(self).abyss() == old(self).abyss().drop_first(),
            r is Ok <==> prn_spec(old(self).abyss()) is Some,
            r matches Ok(t) ==> t@ == codes_text(leaves(old(self).abyss()[0])),
            old(self).abyss().len() > 0 && r is Err ==> (r matches Err(
                AwawaError::InvalidAwasciiCodeError(v),
            ) && leaves(old(self).abyss()[0]).contains(v) && !valid_code(v)),
    {
        let bubble = self.bubble_abyss.pop()?;
        print_bubble_awascii(&bubble)
    }

    /// Pops the front item and returns its scalars.
    pub fn pr1(&mut self) -> (r: Result<Vec<i32>, AwawaError>)
        requires
            old(self).wf(),
        ensures
            final(self).abyss_step(old(self)),
            old(self).abyss().len() == 0 ==> (r matches Err(AwawaError::BubbleAbyssEmpty)
                && final(self).abyss() == old(self).abyss()),
            old(self).abyss().len() > 0 ==> (r matches Ok(v) && v@ == leaves(old(self).abyss()[0])
                && final(self).abyss() == old(self).abyss().drop_first()),
    {
        let bubble = self.bubble_abyss.pop()?;
        Ok(print_bubble(&bubble))
    }

    /// Pushes a double bubble of the AwaSCII codes of `line`'s characters.
    pub fn red(&mut self, line: &str) -> (r: AwawaResult)
        requires
            old(self).wf(),
        ensures
            final(self).abyss_step(old(self)),
            r is Ok,
            final(self).abyss() == red_spec(old(self).abyss(), Some(line@))->0,
    {
        let b = line_to_bubble(line);
        self.bubble_abyss.push_bubble(b);
        Ok(())
    }

    /// Pushes the number that `line` starts with.
    pub fn r3d(&mut self, line: &str) -> (r: AwawaResult)
        requires
            old(self).wf(),
        ensures
            final(self).abyss_step(old(self)),
            r is Ok <==> reads_number(line@),
            r is Ok ==> final(self).abyss() == r3d_spec(old(self).abyss(), Some(line@))->0,
            !reads_number(line@) ==> (r matches Err(AwawaError::NotANumberError(s)) && s@
                == leading_digits(line@) && final(self).abyss() == old(self).abyss()),
    {
        let num = parse_number(line)?;
        self.bubble_abyss.push_bubble(BubbleItem::Bubble(num));
        Ok(())
    }

    pub fn blo(&mut self, val: i8) -> (r: AwawaResult)
        requires
            old(self).wf(),
        ensures
            final(self).abyss_step(old(self)),
            r is Ok,
            final(self).abyss() == seq![BubbleTree::Leaf(val as i32)] + old(self).abyss(),
    {
        self.bubble_abyss.push(val);
        Ok(())
    }

    pub fn sbm(&mut self, val: u8) -> (r: AwawaResult)
        requires
            old(self).wf(),
        ensures
            final(self).abyss_step(old(self)),
            r is Ok <==> sbm_spec(old(self).abyss(), val as nat) is Some,
            r is Ok ==> final(self).abyss() == sbm_spec(old(self).abyss(), val as nat)->0,
            r is Err ==> final(self).abyss() == old(self).abyss(),
            old(self).abyss().len() == 0 ==> r matches Err(AwawaError::BubbleAbyssEmpty),
            old(self).abyss().len() > 0 && r is Err ==> r matches Err(
                AwawaError::BubbleAbyssOutOfBounds,
            ),
    {
        self.bubble_abyss.submerge(val as usize)
    }

    pub fn pop(&mut self) -> (r: AwawaResult)
        requires
            old(self).wf(),
        ensures
            final(self).abyss_step(old(self)),
            r is Ok <==> pop_spec(old(self).abyss()) is Some,
            r is Ok ==> final(self).abyss() == pop_spec(old(self).abyss())->0,
            r is Err ==> (r matches Err(AwawaError::BubbleAbyssEmpty) && final(self).abyss()
                == old(self).abyss()),
    {
        self.bubble_abyss.pop_bubble()
    }

    pub fn dpl(&mut self) -> (r: AwawaResult)
        requires
            old(self).wf(),
        ensures
            final(self).abyss_step(old(self)),
            r is Ok <==> dpl_spec(old(self).abyss()) is Some,
            r is Ok ==> final(self).abyss() == dpl_spec(old(self).abyss())->0,
            r is Err ==> (r matches Err(AwawaError::BubbleAbyssEmpty) && final(self).abyss()
                == old(self).abyss()),
    {
        self.bubble_abyss.duplicate()
    }

    pub fn srn(&mut self, val: u8) -> (r: AwawaResult)
        requires
            old(self).wf(),
        ensures
            final(self).abyss_step(old(self)),
            r is Ok <==> srn_spec(old(self).abyss(), val as nat) is Some,
            r is Ok ==> final(self).abyss() == srn_spec(old(self).abyss(), val as nat)->0,
            r is Err ==> (r matches Err(AwawaError::BubbleAbyssOutOfBounds) && final(self).abyss()
                == old(self).abyss()),
    {
        self.bubble_abyss.surround(val as usize)
    }

    /// Pops the two front items and pushes `op` broadcast over them; on an
    /// error the abyss is left as it was.
    fn arith(&mut self, op: Operation) -> (r: AwawaResult)
        requires
            old(self).wf(),
        ensures
            final(self).abyss_step(old(self)),
            r is Ok <==> arith_spec(old(self).abyss(), op) is Some,
            r is Ok ==> final(self).abyss() == arith_spec(old(self).abyss(), op)->0,
            r is Err ==> final(self).abyss() == old(self).abyss(),
            old(self).abyss().len() < 2 ==> r matches Err(AwawaError::BubbleAbyssEmpty),
            old(self).abyss().len() >= 2 && r is Err ==> r matches Err(
                AwawaError::DivisionByZeroError,
            ),
    {
        if self.bubble_abyss.len() < 2 {
            return Err(AwawaError::BubbleAbyssEmpty);
        }
        let ghost st = self.bubble_abyss@;
        let a = match self.bubble_abyss.pop() {
            Ok(x) => x,
            Err(e) => return Err(e),
        };
        let b = match self.bubble_abyss.pop() {
            Ok(x) => x,
            Err(e) => return Err(e),
        };
        assert(st.skip(2) =~= st.drop_first().drop_first());
        match compute_bubbles(&a, &b, op) {
            Some(res) => {
                self.bubble_abyss.push_bubble(res);
                Ok(())
            },
            None => {
                self.bubble_abyss.push_bubble(b);
                self.bubble_abyss.push_bubble(a);
                assert(self.bubble_abyss@ =~= st);
                Err(AwawaError::DivisionByZeroError)
            },
        }
    }

    /// Broadcast `+` over the two front items.
    pub fn add(&mut self) -> (r: AwawaResult)
        requires
            old(self).wf(),
        ensures
            final(self).abyss_step(old(self)),
            r is Ok <==> old(self).abyss().len() >= 2,
            r is Ok ==> final(self).abyss() == arith_spec(old(self).abyss(), Operation::Add)->0,
            r is Err ==> (r matches Err(AwawaError::BubbleAbyssEmpty) && final(self).abyss()
                == old(self).abyss()),
    {
        self.arith(Operation::Add)
    }

    /// Broadcast `-` over the two front items, the front one first.
    pub fn sub(&mut self) -> (r: AwawaResult)
        requires
            old(self).wf(),
        ensures
            final(self).abyss_step(old(self)),
            r is Ok <==> old(self).abyss().len() >= 2,
            r is Ok ==> final(self).abyss() == arith_spec(old(self).abyss(), Operation::Sub)->0,
            r is Err ==> (r matches Err(AwawaError::BubbleAbyssEmpty) && final(self).abyss()
                == old(self).abyss()),
    {
        self.arith(Operation::Sub)
    }

    /// Broadcast `*` over the two front items.
    pub fn mul(&mut self) -> (r: AwawaResult)
        requires
            old(self).wf(),
        ensures
            final(self).abyss_step(old(self)),
            r is Ok <==> old(self).abyss().len() >= 2,
            r is Ok ==> final(self).abyss() == arith_spec(old(self).abyss(), Operation::Mul)->0,
            r is Err ==> (r matches Err(AwawaError::BubbleAbyssEmpty) && final(self).abyss()
                == old(self).abyss()),
    {
        self.arith(Operation::Mul)
    }

    /// Broadcast division of the front item by the next: pushes the quotient
    /// and the remainder as one double bubble, quotient first.
    pub fn div(&mut self) -> (r: AwawaResult)
        requires
            old(self).wf(),
        ensures
            final(self).abyss_step(old(self)),
            r is Ok <==> div_spec(old(self).abyss()) is Some,
            r is Ok ==> final(self).abyss() == div_spec(old(self).abyss())->0,
            r is Err ==> final(self).abyss() == old(self).abyss(),
            old(self).abyss().len() < 2 ==> r matches Err(AwawaError::BubbleAbyssEmpty),
            old(self).abyss().len() >= 2 && r is Err ==> r matches Err(
                AwawaError::DivisionByZeroError,
            ),
    {
        broadcast use lemma_double_view;

        if self.bubble_abyss.len() < 2 {
            return Err(AwawaError::BubbleAbyssEmpty);
        }
        let ghost st = self.bubble_abyss@;
        let a = match self.bubble_abyss.pop() {
            Ok(x) => x,
            Err(e) => return Err(e),
        };
        let b = match self.bubble_abyss.pop() {
            Ok(x) => x,
            Err(e) => return Err(e),
        };
        assert(st.skip(2) =~= st.drop_first().drop_first());
        let res_div = compute_bubbles(&a, &b, Operation::Div);
        let res_rem = compute_bubbles(&a, &b, Operation::Rem);
        match (res_div, res_rem) {
            (Some(q), Some(m)) => {
                let mut pair: VecDeque<BubbleItem> = VecDeque::new();
                pair.push_back(q);
                pair.push_back(m);
                assert(deque_view(pair) =~= seq![
                    elementwise(Operation::Div, a@, b@),
                    elementwise(Operation::Rem, a@, b@),
                ]);
                self.bubble_abyss.push_bubble(BubbleItem::DoubleBubble(pair));
                Ok(())
            },
            _ => {
                self.bubble_abyss.push_bubble(b);
                self.bubble_abyss.push_bubble(a);
                assert(self.bubble_abyss@ =~= st);
                Err(AwawaError::DivisionByZeroError)
            },
        }
    }

    /// Merges the two front items.
    pub fn mrg(&mut self) -> (r: AwawaResult)
        requires
            old(self).wf(),
        ensures
            final(self).abyss_step(old(self)),
            r is Ok <==> mrg_spec(old(self).abyss()) is Some,
            r is Ok ==> final(self).abyss() == mrg_spec(old(self).abyss())->0,
            r is Err ==> (r matches Err(AwawaError::BubbleAbyssEmpty) && final(self).abyss()
                == old(self).abyss()),
    {
        if self.bubble_abyss.len() < 2 {
            return Err(AwawaError::BubbleAbyssEmpty);
        }
        let ghost st = self.bubble_abyss@;
        let a = match self.bubble_abyss.pop() {
            Ok(x) => x,
            Err(e) => return Err(e),
        };
        let b = match self.bubble_abyss.pop() {
            Ok(x) => x,
            Err(e) => return Err(e),
        };
        assert(st.skip(2) =~= st.drop_first().drop_first());
        let res = merge(a, b);
        self.bubble_abyss.push_bubble(res);
        Ok(())
    }

    pub fn cnt(&mut self) -> (r: AwawaResult)
        requires
            old(self).wf(),
        ensures
            final(self).abyss_step(old(self)),
            r is Ok <==> cnt_spec(old(self).abyss()) is Some,
            r is Ok ==> final(self).abyss() == cnt_spec(old(self).abyss())->0,
            r is Err ==> (r matches Err(AwawaError::BubbleAbyssEmpty) && final(self).abyss()
                == old(self).abyss()),
    {
        self.bubble_abyss.count()
    }

    /// A label has no effect when run; the loader records it.
    pub fn lbl(&mut self, _val: u8) -> (r: AwawaResult)
        requires
            old(self).wf(),
        ensures
            final(self).abyss_step(old(self)),
            final(self).abyss() == old(self).abyss(),
            r is Ok,
    {
        Ok(())
    }

    /// Sets the instruction pointer to the index of label `val`.
    pub fn jmp(&mut self, val: u8) -> (r: AwawaResult)
        requires
            old(self).wf(),
        ensures
            final(self).wf(),
            final(self).same_program(old(self)),
            final(self).abyss() == old(self).abyss(),
            r is Ok <==> old(self).labels_spec().contains_key(val),
            r is Ok <==> labels_of(old(self).program()).contains_key(val),
            r is Ok ==> final(self).ip_spec() == old(self).labels_spec()[val] as nat,
            r is Ok ==> final(self).ip_spec() == labels_of(old(self).program())[val] as nat,
            r is Ok ==> final(self).ip_spec() < final(self).program().len(),
            r is Err ==> (r matches Err(AwawaError::InvalidLabelError(l)) && l == val
                && final(self).ip_spec() == old(self).ip_spec()),
    {
        proof {
            assert(self.awatism_cache@.len() == self.awatism_cache.len());
            lemma_labels_in_range(self.awatism_cache@);
        }
        match self.labels.get(&val) {
            None => Err(AwawaError::InvalidLabelError(val)),
            Some(target) => {
                self.ip = *target;
                Ok(())
            },
        }
    }

    /// Compares the two front items; when the comparison fails, moves the
    /// instruction pointer one further so that the next instruction is skipped.
    fn compare_and_jmp(&mut self, cmp: Comparison) -> (r: AwawaResult)
        requires
            old(self).wf(),
            old(self).ip_spec() < usize::MAX,
        ensures
            final(self).wf(),
            final(self).same_program(old(self)),
            final(self).abyss() == old(self).abyss(),
            r is Ok <==> cmp_spec(old(self).abyss(), cmp) is Some,
            r is Err ==> (r matches Err(AwawaError::BubbleAbyssEmpty) && final(self).ip_spec()
                == old(self).ip_spec()),
            r is Ok ==> final(self).ip_spec() == if cmp_spec(old(self).abyss(), cmp) == Some(false) {
                old(self).ip_spec() + 1
            } else {
                old(self).ip_spec()
            },
    {
        let res = self.bubble_abyss.compare(cmp)?;
        if !res {
            self.ip += 1;
        }
        Ok(())
    }

    pub fn eql(&mut self) -> (r: AwawaResult)
        requires
            old(self).wf(),
            old(self).ip_spec() < usize::MAX,
        ensures
            final(self).wf(),
            final(self).same_program(old(self)),
            final(self).abyss() == old(self).abyss(),
            r is Ok <==> cmp_spec(old(self).abyss(), Comparison::Equal) is Some,
            r is Err ==> (r matches Err(AwawaError::BubbleAbyssEmpty) && final(self).ip_spec()
                == old(self).ip_spec()),
            r is Ok ==> final(self).ip_spec() == if cmp_spec(old(self).abyss(), Comparison::Equal)
                == Some(false) {
                old(self).ip_spec() + 1
            } else {
                old(self).ip_spec()
            },
    {
        self.compare_and_jmp(Comparison::Equal)
    }

    pub fn lss(&mut self) -> (r: AwawaResult)
        requires
            old(self).wf(),
            old(self).ip_spec() < usize::MAX,
        ensures
            final(self).wf(),
            final(self).same_program(old(self)),
            final(self).abyss() == old(self).abyss(),
            r is Ok <==> cmp_spec(old(self).abyss(), Comparison::Less) is Some,
            r is Err ==> (r matches Err(AwawaError::BubbleAbyssEmpty) && final(self).ip_spec()
                == old(self).ip_spec()),
            r is Ok ==> final(self).ip_spec() == if cmp_spec(old(self).abyss(), Comparison::Less)
                == Some(false) {
                old(self).ip_spec() + 1
            } else {
                old(self).ip_spec()
            },
    {
        self.compare_and_jmp(Comparison::Less)
    }

    pub fn gr8(&mut self) -> (r: AwawaResult)
        requires
            old(self).wf(),
            old(self).ip_spec() < usize::MAX,
        ensures
            final(self).wf(),
            final(self).same_program(old(self)),
            final(self).abyss() == old(self).abyss(),
            r is Ok <==> cmp_spec(old(self).abyss(), Comparison::Greater) is Some,
            r is Err ==> (r matches Err(AwawaError::BubbleAbyssEmpty) && final(self).ip_spec()
                == old(self).ip_spec()),
            r is Ok ==> final(self).ip_spec() == if cmp_spec(old(self).abyss(), Comparison::Greater)
                == Some(false) {
                old(self).ip_spec() + 1
            } else {
                old(self).ip_spec()
            },
    {
        self.compare_and_jmp(Comparison::Greater)
    }

    /// Ends the program.
    pub fn trm(&mut self) -> (r: AwawaResult)
        requires
            old(self).wf(),
        ensures
            final(self).abyss_step(old(self)),
            final(self).abyss() == old(self).abyss(),
            r matches Err(AwawaError::EndOfProgramError()),
    {
        Err(AwawaError::EndOfProgramError())
    }
}

/// Whether `e` is the error that `a` raises when it fails on abyss `st`, with
/// `line` the input line offered to it and `labels` the label table.
pub open spec fn step_error_is(
    e: AwawaError,
    a: Awatism,
    st: Seq<BubbleTree>,
    line: Option<Seq<char>>,
    labels: Map<u8, usize>,
) -> bool {
    match a {
        Awatism::Prn => if st.len() == 0 {
            e is BubbleAbyssEmpty
        } else {
            e matches AwawaError::InvalidAwasciiCodeError(v) && leaves(st[0]).contains(v)
                && !valid_code(v)
        },
        Awatism::Red => e is ReadLineError,
        Awatism::R3d => match line {
            None => e is ReadLineError,
            Some(cs) => e matches AwawaError::NotANumberError(s) && s@ == leading_digits(cs),
        },
        Awatism::Sbm(_) => if st.len() == 0 {
            e is BubbleAbyssEmpty
        } else {
            e is BubbleAbyssOutOfBounds
        },
        Awatism::Srn(_) => e is BubbleAbyssOutOfBounds,
        Awatism::Div => if st.len() < 2 {
            e is BubbleAbyssEmpty
        } else {
            e is DivisionByZeroError
        },
        Awatism::Jmp(l) => e == AwawaError::InvalidLabelError(l),
        Awatism::Trm => e == AwawaError::EndOfProgramError(),
        Awatism::Pr1 | Awatism::Pop | Awatism::Dpl | Awatism::Mrg | Awatism::Add | Awatism::Sub
        | Awatism::Mul | Awatism::Cnt | Awatism::Eql | Awatism::Lss | Awatism::Gr8 => {
            e is BubbleAbyssEmpty
        },
        Awatism::Nop | Awatism::Blo(_) | Awatism::Lbl(_) => false,
    }
}

/// The abyss after `a` failed on `st`: `prn` and `pr1` have taken the front
/// item when there was one; every other instruction leaves the abyss as it was.
pub open spec fn abyss_after_error(a: Awatism, st: Seq<BubbleTree>) -> Seq<BubbleTree> {
    if (a is Prn || a is Pr1) && st.len() > 0 {
        st.drop_first()
    } else {
        st
    }
}

/// What a step that ran `a` on abyss `st` hands out to print.
pub open spec fn output_matches(a: Awatism, st: Seq<BubbleTree>, o: Output) -> bool {
    match a {
        Awatism::Prn => o matches Output::Text(t) && t@ == codes_text(leaves(st[0])),
        Awatism::Pr1 => o matches Output::Numbers(v) && v@ == leaves(st[0]),
        _ => o is Nothing,
    }
}

impl AwaCPU {
    /// Whether the instruction at the pointer reads a line of input.
    pub fn wants_line(&self) -> (r: bool)
        ensures
            r == (self.ip_spec() < self.program().len() && (self.program()[self.ip_spec() as int] is Red
                || self.program()[self.ip_spec() as int] is R3d)),
    {
        if self.ip < self.awatism_cache.len() {
            match self.awatism_cache[self.ip] {
                Awatism::Red | Awatism::R3d => true,
                _ => false,
            }
        } else {
            false
        }
    }

    /// Runs the instruction at the pointer, with `line` the input line for
    /// `red` and `r3d` (`None` when none could be read), and moves the pointer:
    /// to a jump's target, else one further, or two after a failed comparison.
    /// Past the last instruction, or at `trm`, the program has ended.
    pub fn execute_awatism(&mut self, line: Option<&str>) -> (r: Result<Output, AwawaError>)
        requires
            old(self).wf(),
        ensures
            final(self).wf(),
            final(self).same_program(old(self)),
            old(self).ip_spec() >= old(self).program().len() ==> (r matches Err(
                AwawaError::EndOfProgramError(),
            ) && final(self).abyss() == old(self).abyss() && final(self).ip_spec()
                == old(self).ip_spec()),
            old(self).ip_spec() < old(self).program().len() ==> ({
                let a = old(self).program()[old(self).ip_spec() as int];
                &&& (r is Ok <==> step_ok(
                    a,
                    old(self).abyss(),
                    line_view(line),
                    old(self).labels_spec(),
                ))
                &&& (r is Ok ==> final(self).abyss() == step_abyss(
                    a,
                    old(self).abyss(),
                    line_view(line),
                )->0)
                &&& (r is Ok ==> final(self).ip_spec() == next_ip(
                    a,
                    old(self).ip_spec(),
                    old(self).abyss(),
                    old(self).labels_spec(),
                ))
                &&& (r matches Ok(o) ==> output_matches(a, old(self).abyss(), o))
                &&& (r is Err ==> final(self).ip_spec() == old(self).ip_spec())
                &&& (r matches Err(e) ==> step_error_is(
                    e,
                    a,
                    old(self).abyss(),
                    line_view(line),
                    old(self).labels_spec(),
                ))
                &&& (r is Err ==> final(self).abyss() == abyss_after_error(a, old(self).abyss()))
                &&& (a is Trm ==> r matches Err(AwawaError::EndOfProgramError()))
                &&& ((a is Red || a is R3d) && line is None ==> r matches Err(
                    AwawaError::ReadLineError,
                ))
            }),
    {
        if self.ip >= self.awatism_cache.len() {
            return Err(AwawaError::EndOfProgramError());
        }
        proof {
            assert(self.awa_it.chars@.len() == self.awa_it.chars.len());
        }
        let awatism = self.awatism_cache[self.ip];
        let mut out = Output::Nothing;
        let res: AwawaResult = match awatism {
            Awatism::Nop => self.nop(),
            Awatism::Prn => match self.prn() {
                Ok(t) => {
                    out = Output::Text(t);
                    Ok(())
                },
                Err(e) => Err(e),
            },
            Awatism::Pr1 => match self.pr1() {
                Ok(v) => {
                    out = Output::Numbers(v);
                    Ok(())
                },
                Err(e) => Err(e),
            },
            Awatism::Red => match line {
                Some(l) => self.red(l),
                None => Err(AwawaError::ReadLineError),
            },
            Awatism::R3d => match line {
                Some(l) => self.r3d(l),
                None => Err(AwawaError::ReadLineError),
            },
            Awatism::Blo(val) => self.blo(val),
            Awatism::Sbm(val) => self.sbm(val),
            Awatism::Pop => self.pop(),
            Awatism::Dpl => self.dpl(),
            Awatism::Srn(val) => self.srn(val),
            Awatism::Mrg => self.mrg(),
            Awatism::Add => self.add(),
            Awatism::Sub => self.sub(),
            Awatism::Mul => self.mul(),
            Awatism::Div => self.div(),
            Awatism::Cnt => self.cnt(),
            Awatism::Lbl(val) => self.lbl(val),
            Awatism::Jmp(val) => {
                return match self.jmp(val) {
                    Ok(()) => Ok(Output::Nothing),
                    Err(e) => Err(e),
                };
            },
            Awatism::Eql => self.eql(),
            Awatism::Lss => self.lss(),
            Awatism::Gr8 => self.gr8(),
            Awatism::Trm => self.trm(),
        };
        match res {
            Ok(()) => {
                self.ip += 1;
                Ok(out)
            },
            Err(e) => Err(e),
        }
    }
}

// ---------------------------------------------------------------------------
// Laws

/// After a step that ran anything but a jump without error, the instruction
/// pointer is one further, or two after a comparison that failed.
pub proof fn law_step_advances(a: Awatism, ip: nat, st: Seq<BubbleTree>, labels: Map<u8, usize>)
    requires
        !(a is Jmp),
    ensures
        next_ip(a, ip, st, labels) == ip + 1 || next_ip(a, ip, st, labels) == ip + 2,
        !is_comparison(a) ==> next_ip(a, ip, st, labels) == ip + 1,
{
}

/// `dpl` adds exactly one item to the abyss.
pub proof fn law_dpl_grows(st: Seq<BubbleTree>)
    requires
        st.len() > 0,
    ensures
        dpl_spec(st) is Some,
        dpl_spec(st)->0.len() == st.len() + 1,
{
}

/// `srn(n)` followed by `pop` gives back the abyss as it was.
pub proof fn law_pop_undoes_srn(st: Seq<BubbleTree>, n: nat)
    requires
        n <= st.len(),
    ensures
        srn_spec(st, n) is Some,
        pop_spec(srn_spec(st, n)->0) == Some(st),
{
    let after = srn_spec(st, n)->0;
    assert(after.drop_first() =~= st.skip(n as int));
    assert(st.take(n as int) + st.skip(n as int) =~= st);
}

/// Broadcasting over two double bubbles of equal length works item by
/// item: item `i` of the result is the broadcast over the two items `i`,
/// and for two scalars it is the scalar result.
pub proof fn law_elementwise(op: Operation, s: Seq<BubbleTree>, t: Seq<BubbleTree>, i: int)
    requires
        s.len() == t.len(),
        0 <= i < s.len(),
    ensures
        elementwise(op, BubbleTree::Node(s), BubbleTree::Node(t)) is Node,
        elementwise(op, BubbleTree::Node(s), BubbleTree::Node(t))->Node_0.len() == s.len(),
        elementwise(op, BubbleTree::Node(s), BubbleTree::Node(t))->Node_0[i] == elementwise(
            op,
            s[i],
            t[i],
        ),
        (s[i] is Leaf && t[i] is Leaf) ==> elementwise(
            op,
            BubbleTree::Node(s),
            BubbleTree::Node(t),
        )->Node_0[i] == BubbleTree::Leaf(scalar_op(op, s[i]->Leaf_0, t[i]->Leaf_0)),
{
    reveal_with_fuel(elementwise, 2);
}

proof fn lemma_hits_zero_below_exists(a: BubbleTree, b: BubbleTree, m: nat)
    requires
        !both_leaves(a, b),
        m <= width(a, b),
    ensures
        hits_zero_below(a, b, m) <==> exists|i: int|
            0 <= i < m && #[trigger] hits_zero(part(a, i), part(b, i)),
    decreases m,
{
    if m > 0 {
        lemma_hits_zero_below_exists(a, b, (m - 1) as nat);
        if hits_zero(part(a, m - 1), part(b, m - 1)) {
            assert(exists|i: int| 0 <= i < m && #[trigger] hits_zero(part(a, i), part(b, i)));
        }
    }
}

/// Broadcasting over two double bubbles of equal length fails exactly when
/// broadcasting over one pair of items at the same position fails.
pub proof fn law_elementwise_error(op: Operation, s: Seq<BubbleTree>, t: Seq<BubbleTree>)
    requires
        s.len() == t.len(),
    ensures
        divides_by_zero(op, BubbleTree::Node(s), BubbleTree::Node(t)) <==> exists|i: int|
            0 <= i < s.len() && #[trigger] divides_by_zero(op, s[i], t[i]),
{
    let a = BubbleTree::Node(s);
    let b = BubbleTree::Node(t);
    lemma_hits_zero_below_exists(a, b, s.len());
    if exists|i: int| 0 <= i < s.len() && #[trigger] divides_by_zero(op, s[i], t[i]) {
        let i = choose|i: int| 0 <= i < s.len() && #[trigger] divides_by_zero(op, s[i], t[i]);
        assert(hits_zero(part(a, i), part(b, i)));
    }
    if divides_by_zero(op, a, b) {
        let i = choose|i: int| 0 <= i < s.len() && #[trigger] hits_zero(part(a, i), part(b, i));
        assert(divides_by_zero(op, s[i], t[i]));
    }
}

/// The shape of a bubble: its nesting, with every scalar replaced by 0.
pub open spec fn shape(t: BubbleTree) -> BubbleTree
    decreases t,
{
    match t {
        BubbleTree::Leaf(_) => BubbleTree::Leaf(0),
        BubbleTree::Node(s) => BubbleTree::Node(
            Seq::new(s.len(), |i: int| if 0 <= i < s.len() { shape(s[i]) } else { BubbleTree::Leaf(0) }),
        ),
    }
}

/// Broadcasting two operations over the same operands gives the same shape.
pub proof fn lemma_same_shape(op1: Operation, op2: Operation, a: BubbleTree, b: BubbleTree)
    ensures
        shape(elementwise(op1, a, b)) == shape(elementwise(op2, a, b)),
    decreases a, b,
{
    if !both_leaves(a, b) {
        let n = width(a, b);
        let x = elementwise(op1, a, b)->Node_0;
        let y = elementwise(op2, a, b)->Node_0;
        assert forall|i: int| 0 <= i < n implies shape(x[i]) == shape(y[i]) by {
            if a is Node {
                assert(decreases_to!(a => a->Node_0));
                assert(decreases_to!(a->Node_0 => a->Node_0[i]));
            } else {
                assert(decreases_to!(b => b->Node_0));
                assert(decreases_to!(b->Node_0 => b->Node_0[i]));
            }
            lemma_same_shape(op1, op2, part(a, i), part(b, i));
        }
        assert(shape(elementwise(op1, a, b))->Node_0 =~= shape(elementwise(op2, a, b))->Node_0);
    }
}

/// `div` pushes one double bubble of length two, quotient first and remainder
/// second, both broadcast to the same shape.
pub proof fn law_div_pair(st: Seq<BubbleTree>)
    requires
        div_spec(st) is Some,
    ensures
        div_spec(st)->0[0] is Node,
        div_spec(st)->0[0]->Node_0.len() == 2,
        div_spec(st)->0[0]->Node_0[0] == elementwise(Operation::Div, st[0], st[1]),
        div_spec(st)->0[0]->Node_0[1] == elementwise(Operation::Rem, st[0], st[1]),
        shape(div_spec(st)->0[0]->Node_0[0]) == shape(div_spec(st)->0[0]->Node_0[1]),
        div_spec(st)->0.skip(1) == st.skip(2),
{
    lemma_same_shape(Operation::Div, Operation::Rem, st[0], st[1]);
    assert(div_spec(st)->0.skip(1) =~= st.skip(2));
}

// ---------------------------------------------------------------------------
// Listing instructions

/// The three letters of an instruction's mnemonic.
pub open spec fn mnemonic_text(a: Awatism) -> Seq<char> {
    match a {
        Awatism::Nop => seq!['n', 'o', 'p'],
        Awatism::Prn => seq!['p', 'r', 'n'],
        Awatism::Pr1 => seq!['p', 'r', '1'],
        Awatism::Red => seq!['r', 'e', 'd'],
        Awatism::R3d => seq!['r', '3', 'd'],
        Awatism::Blo(_) => seq!['b', 'l', 'o'],
        Awatism::Sbm(_) => seq!['s', 'b', 'm'],
        Awatism::Pop => seq!['p', 'o', 'p'],
        Awatism::Dpl => seq!['d', 'p', 'l'],
        Awatism::Srn(_) => seq!['s', 'r', 'n'],
        Awatism::Mrg => seq!['m', 'r', 'g'],
        Awatism::Add => seq!['a', 'd', 'd'],
        Awatism::Sub => seq!['s', 'u', 'b'],
        Awatism::Mul => seq!['m', 'u', 'l'],
        Awatism::Div => seq!['d', 'i', 'v'],
        Awatism::Cnt => seq!['c', 'n', 't'],
        Awatism::Lbl(_) => seq!['l', 'b', 'l'],
        Awatism::Jmp(_) => seq!['j', 'm', 'p'],
        Awatism::Eql => seq!['e', 'q', 'l'],
        Awatism::Lss => seq!['l', 's', 's'],
        Awatism::Gr8 => seq!['g', 'r', '8'],
        Awatism::Trm => seq!['t', 'r', 'm'],
    }
}

/// One line of a disassembly: the mnemonic, then the operand if there is
/// one, a `blo` operand shown as its quoted character when it has one.
pub open spec fn awatism_listing(a: Awatism) -> Seq<char> {
    match a {
        Awatism::Blo(v) => mnemonic_text(a) + seq![' '] + scalar_text(v as i32),
        Awatism::Sbm(v) => mnemonic_text(a) + seq![' '] + int_text(v as int),
        Awatism::Srn(v) => mnemonic_text(a) + seq![' '] + int_text(v as int),
        Awatism::Lbl(v) => mnemonic_text(a) + seq![' '] + int_text(v as int),
        Awatism::Jmp(v) => mnemonic_text(a) + seq![' '] + int_text(v as int),
        _ => mnemonic_text(a),
    }
}

fn mnemonic_chars(a: Awatism) -> (r: (char, char, char))
    ensures
        seq![r.0, r.1, r.2] == mnemonic_text(a),
{
    match a {
        Awatism::Nop => ('n', 'o', 'p'),
        Awatism::Prn => ('p', 'r', 'n'),
        Awatism::Pr1 => ('p', 'r', '1'),
        Awatism::Red => ('r', 'e', 'd'),
        Awatism::R3d => ('r', '3', 'd'),
        Awatism::Blo(_) => ('b', 'l', 'o'),
        Awatism::Sbm(_) => ('s', 'b', 'm'),
        Awatism::Pop => ('p', 'o', 'p'),
        Awatism::Dpl => ('d', 'p', 'l'),
        Awatism::Srn(_) => ('s', 'r', 'n'),
        Awatism::Mrg => ('m', 'r', 'g'),
        Awatism::Add => ('a', 'd', 'd'),
        Awatism::Sub => ('s', 'u', 'b'),
        Awatism::Mul => ('m', 'u', 'l'),
        Awatism::Div => ('d', 'i', 'v'),
        Awatism::Cnt => ('c', 'n', 't'),
        Awatism::Lbl(_) => ('l', 'b', 'l'),
        Awatism::Jmp(_) => ('j', 'm', 'p'),
        Awatism::Eql => ('e', 'q', 'l'),
        Awatism::Lss => ('l', 's', 's'),
        Awatism::Gr8 => ('g', 'r', '8'),
        Awatism::Trm => ('t', 'r', 'm'),
    }
}

impl Awatism {
    /// This instruction as a line of a disassembly, as `awatism_listing` says.
    pub fn to_text(&self) -> (r: String)
        ensures
            r@ == awatism_listing(*self),
    {
        let (a, b, c) = mnemonic_chars(*self);
        let mut out: Vec<char> = Vec::new();
        out.push(a);
        out.push(b);
        out.push(c);
        assert(out@ =~= mnemonic_text(*self));
        match *self {
            Awatism::Blo(v) => {
                out.push(' ');
                push_scalar(v as i32, &mut out);
            },
            Awatism::Sbm(v) | Awatism::Srn(v) | Awatism::Lbl(v) | Awatism::Jmp(v) => {
                out.push(' ');
                push_digits(v as u64, &mut out);
            },
            _ => {},
        }
        assert(out@ =~= awatism_listing(*self));
        string_of(&out)
    }
}

} // verus!

use vstd::arithmetic::power2::{lemma2_to64, lemma_pow2_unfold, pow2};
use vstd::prelude::*;

use crate::awacpu::awascii::{awascii_code, ord};
use crate::awacpu::{
    build_awatism, chars_of, decimal_value, decode_from, decode_instr, is_digit, is_opcode,
    lemma_read_advances, lemma_scan_advances, load_spec, opcode, operand_width, read_bits, read_loop, scan_token, string_of, Awatism,
    BitsRead, Decoded, TokenScan,
};
use crate::errors::AwawaError;

verus! {

// ---------------------------------------------------------------------------
// Printing instructions as tokens

/// The token for one bit: `wa` for 1, ` awa` for 0.
pub open spec fn bit_token(b: nat) -> Seq<char> {
    if b == 1 {
        seq!['w', 'a']
    } else {
        seq![' ', 'a', 'w', 'a']
    }
}

/// The tokens of the low `n` bits of `v`, most significant first.
pub open spec fn bits_text(v: nat, n: nat) -> Seq<char>
    decreases n,
{
    if n == 0 {
        Seq::empty()
    } else {
        bits_text(v / 2, (n - 1) as nat) + bit_token(v % 2)
    }
}

/// The operand bits of an instruction, with their count.
pub open spec fn operand_of(a: Awatism) -> (nat, nat) {
    match a {
        Awatism::Blo(v) => ((v as u8) as nat, 8),
        Awatism::Sbm(v) => (v as nat, 5),
        Awatism::Srn(v) => (v as nat, 5),
        Awatism::Lbl(v) => (v as nat, 5),
        Awatism::Jmp(v) => (v as nat, 5),
        _ => (0, 0),
    }
}

/// The tokens of one instruction: its 5-bit opcode, then its operand.
pub open spec fn awatism_text(a: Awatism) -> Seq<char> {
    bits_text(opcode(a) as nat, 5) + bits_text(operand_of(a).0, operand_of(a).1)
}

/// The tokens of a sequence of instructions.
pub open spec fn awatisms_text(p: Seq<Awatism>) -> Seq<char>
    decreases p.len(),
{
    if p.len() == 0 {
        Seq::empty()
    } else {
        awatism_text(p[0]) + awatisms_text(p.drop_first())
    }
}

/// The canonical token form of a program: `awa`, then each instruction.
pub open spec fn program_text(p: Seq<Awatism>) -> Seq<char> {
    seq!['a', 'w', 'a'] + awatisms_text(p)
}

/// Whether an instruction's operand fits its field, so that printing keeps it.
pub open spec fn operand_fits(a: Awatism) -> bool {
    match a {
        Awatism::Sbm(v) => v < 32,
        Awatism::Srn(v) => v < 32,
        Awatism::Lbl(v) => v < 32,
        Awatism::Jmp(v) => v < 32,
        _ => true,
    }
}

/// Appends the tokens of the low `n` bits of `awa`, most significant first.
fn print_awawa(awa: u8, n: u8, out: &mut Vec<char>)
    ensures
        final(out)@ == old(out)@ + bits_text(awa as nat, n as nat),
    decreases n,
{
    if n == 0 {
        assert(old(out)@ + bits_text(awa as nat, 0) =~= old(out)@);
        return;
    }
    print_awawa(awa / 2, n - 1, out);
    if awa % 2 == 1 {
        out.push('w');
        out.push('a');
    } else {
        out.push(' ');
        out.push('a');
        out.push('w');
        out.push('a');
    }
    assert(out@ =~= old(out)@ + bits_text(awa as nat, n as nat));
}

/// Appends the tokens of one instruction.
fn print_awatism(awa: Awatism, out: &mut Vec<char>)
    ensures
        final(out)@ == old(out)@ + awatism_text(awa),
{
    let n = awa.discriminant();
    print_awawa(n, 5, out);
    let ghost mid = out@;
    match awa {
        Awatism::Blo(val) => print_awawa(val as u8, 8, out),
        Awatism::Sbm(val) => print_awawa(val, 5, out),
        Awatism::Srn(val) => print_awawa(val, 5, out),
        Awatism::Lbl(val) => print_awawa(val, 5, out),
        Awatism::Jmp(val) => print_awawa(val, 5, out),
        _ => {
            assert(mid + bits_text(0, 0) =~= mid);
        },
    }
    assert(out@ =~= old(out)@ + awatism_text(awa));
}

/// The canonical token form of `awas`.
pub fn print_awatisms(awas: Vec<Awatism>) -> (r: String)
    ensures
        r@ == program_text(awas@),
{
    let mut out: Vec<char> = Vec::new();
    out.push('a');
    out.push('w');
    out.push('a');
    let mut i: usize = 0;
    assert(awas@.skip(0) =~= awas@);
    assert(out@ =~= seq!['a', 'w', 'a']);
    while i < awas.len()
        invariant
            i <= awas@.len(),
            out@ + awatisms_text(awas@.skip(i as int)) == program_text(awas@),
        decreases awas@.len() - i,
    {
        let ghost before = out@;
        print_awatism(awas[i], &mut out);
        proof {
            assert(awas@.skip(i as int).drop_first() =~= awas@.skip(i + 1));
            assert(awas@.skip(i as int)[0] == awas@[i as int]);
            assert(before + awatisms_text(awas@.skip(i as int)) =~= out@ + awatisms_text(
                awas@.skip(i + 1),
            ));
        }
        i += 1;
    }
    proof {
        assert(awas@.skip(i as int) =~= Seq::<Awatism>::empty());
        assert(out@ + Seq::<char>::empty() =~= out@);
    }
    string_of(&out)
}

// ---------------------------------------------------------------------------
// Reading printed tokens back

/// The accumulator after reading the low `k` bits of `v` onto `acc`.
pub open spec fn acc_after(acc: nat, v: nat, k: nat) -> nat
    decreases k,
{
    if k == 0 {
        acc
    } else {
        2 * acc_after(acc, v / 2, (k - 1) as nat) + v % 2
    }
}

proof fn lemma_acc_after_value(v: nat, k: nat)
    requires
        v < pow2(k),
    ensures
        acc_after(0, v, k) == v,
    decreases k,
{
    if k == 0 {
        lemma2_to64();
    } else {
        lemma_pow2_unfold(k);
        lemma_acc_after_value(v / 2, (k - 1) as nat);
    }
}

proof fn lemma_scan_bit_token(s: Seq<char>, pos: nat, b: nat)
    requires
        b < 2,
        pos + bit_token(b).len() <= s.len(),
        s.subrange(pos as int, (pos + bit_token(b).len()) as int) == bit_token(b),
    ensures
        scan_token(s, pos) == TokenScan::Bit(b, pos + bit_token(b).len()),
{
    let t = bit_token(b);
    assert forall|i: int| 0 <= i < t.len() implies s[pos + i] == t[i] by {
        assert(s.subrange(pos as int, (pos + t.len()) as int)[i] == s[pos + i]);
    }
    if b == 0 {
        assert(s[pos as int] == ' ');
        assert(scan_token(s, pos) == scan_token(s, pos + 1));
    }
}

proof fn lemma_read_text(s: Seq<char>, pos: nat, v: nat, k: nat, n: nat, r: nat, acc: nat)
    requires
        pos + bits_text(v, k).len() <= s.len(),
        s.subrange(pos as int, (pos + bits_text(v, k).len()) as int) == bits_text(v, k),
        r + k <= n,
    ensures
        read_loop(s, pos, n, r, acc) == read_loop(
            s,
            pos + bits_text(v, k).len(),
            n,
            r + k,
            acc_after(acc, v, k),
        ),
    decreases k,
{
    if k > 0 {
        let head = bits_text(v / 2, (k - 1) as nat);
        let tok = bit_token(v % 2);
        let mid = pos + head.len();
        assert(s.subrange(pos as int, mid as int) =~= head) by {
            assert(s.subrange(pos as int, mid as int) =~= s.subrange(
                pos as int,
                (pos + bits_text(v, k).len()) as int,
            ).subrange(0, head.len() as int));
        }
        lemma_read_text(s, pos, v / 2, (k - 1) as nat, n, r, acc);
        assert(s.subrange(mid as int, (mid + tok.len()) as int) =~= tok) by {
            assert(s.subrange(mid as int, (mid + tok.len()) as int) =~= s.subrange(
                pos as int,
                (pos + bits_text(v, k).len()) as int,
            ).subrange(head.len() as int, (head.len() + tok.len()) as int));
        }
        lemma_scan_bit_token(s, mid, v % 2);
    }
}

proof fn lemma_read_field(s: Seq<char>, pos: nat, v: nat, k: nat)
    requires
        0 < k <= 8,
        v < pow2(k),
        pos + bits_text(v, k).len() <= s.len(),
        s.subrange(pos as int, (pos + bits_text(v, k).len()) as int) == bits_text(v, k),
    ensures
        read_bits(s, pos, k) == BitsRead::Value(v, pos + bits_text(v, k).len()),
{
    lemma_read_text(s, pos, v, k, k, 0, 0);
    lemma_acc_after_value(v, k);
}

proof fn lemma_build_blo(v: i8)
    ensures
        ((v as u8) as nat) as u8 as i8 == v,
{
    assert(((v as u8) as u8) as i8 == v) by (bit_vector);
}

proof fn lemma_decode_one(s: Seq<char>, pos: nat, a: Awatism)
    requires
        operand_fits(a),
        pos + awatism_text(a).len() <= s.len(),
        s.subrange(pos as int, (pos + awatism_text(a).len()) as int) == awatism_text(a),
    ensures
        read_bits(s, pos, 5) == BitsRead::Value(
            opcode(a) as nat,
            pos + bits_text(opcode(a) as nat, 5).len(),
        ),
        decode_instr(s, pos + bits_text(opcode(a) as nat, 5).len(), opcode(a) as nat)
            == Decoded::Instr(a, pos + awatism_text(a).len()),
{
    let op = opcode(a) as nat;
    let head = bits_text(op, 5);
    let (val, w) = operand_of(a);
    let tail = bits_text(val, w);
    let p1 = pos + head.len();
    let t = awatism_text(a);
    assert(t.subrange(0, head.len() as int) =~= head);
    assert(t.subrange(head.len() as int, (head.len() + tail.len()) as int) =~= tail);
    lemma2_to64();
    assert(s.subrange(pos as int, p1 as int) =~= s.subrange(
        pos as int,
        (pos + awatism_text(a).len()) as int,
    ).subrange(0, head.len() as int));
    lemma_read_field(s, pos, op, 5);
    assert(is_opcode(op));
    assert(operand_width(op) == w);
    if w > 0 {
        assert(s.subrange(p1 as int, (p1 + tail.len()) as int) =~= s.subrange(
            pos as int,
            (pos + awatism_text(a).len()) as int,
        ).subrange(head.len() as int, (head.len() + tail.len()) as int));
        lemma_read_field(s, p1, val, w);
        if let Awatism::Blo(v) = a {
            lemma_build_blo(v);
        }
        assert(build_awatism(op, val) == a);
    } else {
        assert(build_awatism(op, 0) == a);
    }
}

proof fn lemma_decode_all(s: Seq<char>, pos: nat, p: Seq<Awatism>)
    requires
        pos + awatisms_text(p).len() == s.len(),
        s.subrange(pos as int, s.len() as int) == awatisms_text(p),
        forall|i: int| 0 <= i < p.len() ==> operand_fits(#[trigger] p[i]),
    ensures
        decode_from(s, pos) == (p, None::<crate::errors::AwawaLoadError>),
    decreases p.len(),
{
    if p.len() == 0 {
        assert(p =~= Seq::<Awatism>::empty());
    } else {
        let a = p[0];
        let t = awatism_text(a);
        let rest = p.drop_first();
        let q = pos + t.len();
        let all = awatisms_text(p);
        assert(all == t + awatisms_text(rest));
        assert(all.subrange(0, t.len() as int) =~= t);
        assert(all.subrange(t.len() as int, all.len() as int) =~= awatisms_text(rest));
        assert(s.subrange(pos as int, q as int) =~= s.subrange(pos as int, s.len() as int).subrange(
            0,
            t.len() as int,
        ));
        assert(operand_fits(p[0]));
        lemma_decode_one(s, pos, a);
        assert(s.subrange(q as int, s.len() as int) =~= s.subrange(
            pos as int,
            s.len() as int,
        ).subrange(t.len() as int, awatisms_text(p).len() as int));
        assert forall|i: int| 0 <= i < rest.len() implies operand_fits(#[trigger] rest[i]) by {
            assert(rest[i] == p[i + 1]);
        }
        lemma_decode_all(s, q, rest);
        assert(seq![a] + rest =~= p);
    }
}

/// Printing a program and loading the tokens back gives the same program,
/// when every 5-bit operand fits its field.
pub proof fn law_load_after_print(p: Seq<Awatism>)
    requires
        forall|i: int| 0 <= i < p.len() ==> operand_fits(#[trigger] p[i]),
    ensures
        load_spec(program_text(p)) == (p, None::<crate::errors::AwawaLoadError>),
{
    let s = program_text(p);
    assert(s[0] == 'a' && s[1] == 'w' && s[2] == 'a');
    assert(s.subrange(3, s.len() as int) =~= awatisms_text(p));
    lemma_decode_all(s, 3, p);
    assert(scan_token(s, 0) == TokenScan::Bit(0, 3));
    reveal_with_fuel(read_loop, 2);
    assert(read_bits(s, 0, 1) == BitsRead::Value(0, 3));
}

// ---------------------------------------------------------------------------
// The bits of a token stream

/// The bits of the tokens of `s` from `pos` on, up to its end or to a
/// malformed token.
pub open spec fn bits_from(s: Seq<char>, pos: nat) -> Seq<nat>
    decreases s.len() - pos,
{
    if pos >= s.len() {
        Seq::empty()
    } else {
        match scan_token(s, pos) {
            TokenScan::Bit(b, p) => if pos < p <= s.len() {
                seq![b] + bits_from(s, p)
            } else {
                Seq::empty()
            },
            _ => Seq::empty(),
        }
    }
}

/// The bits of the tokens of `s`.
pub open spec fn token_bits(s: Seq<char>) -> Seq<nat> {
    bits_from(s, 0)
}

/// The low `k` bits of `v`, most significant first.
pub open spec fn num_bits(v: nat, k: nat) -> Seq<nat>
    decreases k,
{
    if k == 0 {
        Seq::empty()
    } else {
        num_bits(v / 2, (k - 1) as nat).push(v % 2)
    }
}

/// The bits of a sequence of instructions: opcode, then operand, of each.
pub open spec fn program_bits(p: Seq<Awatism>) -> Seq<nat>
    decreases p.len(),
{
    if p.len() == 0 {
        Seq::empty()
    } else {
        num_bits(opcode(p[0]) as nat, 5) + num_bits(operand_of(p[0]).0, operand_of(p[0]).1)
            + program_bits(p.drop_first())
    }
}

/// The value of `acc` followed by the bits `bs`.
pub open spec fn fold_bits(acc: nat, bs: Seq<nat>) -> nat
    decreases bs.len(),
{
    if bs.len() == 0 {
        acc
    } else {
        fold_bits(2 * acc + bs[0], bs.drop_first())
    }
}

/// The first `k` bits that reading from `pos` takes.
pub open spec fn read_seq(s: Seq<char>, pos: nat, k: nat) -> Seq<nat>
    decreases k,
{
    if k == 0 {
        Seq::empty()
    } else {
        match scan_token(s, pos) {
            TokenScan::Bit(b, p) => seq![b] + read_seq(s, p, (k - 1) as nat),
            _ => Seq::empty(),
        }
    }
}

pub open spec fn all_bits(bs: Seq<nat>) -> bool {
    forall|i: int| 0 <= i < bs.len() ==> #[trigger] bs[i] < 2
}

proof fn lemma_read_bits_taken(s: Seq<char>, pos: nat, n: nat, r: nat, acc: nat)
    requires
        pos <= s.len(),
        r <= n,
        read_loop(s, pos, n, r, acc) is Value,
    ensures
        ({
            let q = read_loop(s, pos, n, r, acc)->Value_1;
            let bs = read_seq(s, pos, (n - r) as nat);
            &&& bits_from(s, pos) == bs + bits_from(s, q)
            &&& read_loop(s, pos, n, r, acc)->Value_0 == fold_bits(acc, bs)
            &&& bs.len() == n - r
            &&& all_bits(bs)
        }),
    decreases n - r,
{
    let k = (n - r) as nat;
    if r >= n {
        assert(read_seq(s, pos, 0) =~= Seq::<nat>::empty());
        assert(Seq::<nat>::empty() + bits_from(s, pos) =~= bits_from(s, pos));
    } else {
        lemma_scan_advances(s, pos);
        if let TokenScan::Bit(b, p) = scan_token(s, pos) {
            lemma_read_bits_taken(s, p, n, r + 1, 2 * acc + b);
            let rest = read_seq(s, p, (k - 1) as nat);
            let bs = read_seq(s, pos, k);
            assert(bs == seq![b] + rest);
            assert(bs.drop_first() =~= rest);
            assert(bs[0] == b);
            assert(seq![b] + (rest + bits_from(s, read_loop(s, pos, n, r, acc)->Value_1)) =~= bs
                + bits_from(s, read_loop(s, pos, n, r, acc)->Value_1));
            assert forall|i: int| 0 <= i < bs.len() implies #[trigger] bs[i] < 2 by {
                if i > 0 {
                    assert(bs[i] == rest[i - 1]);
                }
            }
        }
    }
}

proof fn lemma_read_no_eof(s: Seq<char>, pos: nat, n: nat, r: nat, acc: nat)
    requires
        r > 0,
    ensures
        !(read_loop(s, pos, n, r, acc) is Eof),
    decreases n - r,
{
    if r < n {
        if let TokenScan::Bit(b, p) = scan_token(s, pos) {
            lemma_read_no_eof(s, p, n, r + 1, 2 * acc + b);
        }
    }
}

proof fn lemma_fold_push(acc: nat, bs: Seq<nat>, b: nat)
    ensures
        fold_bits(acc, bs.push(b)) == 2 * fold_bits(acc, bs) + b,
    decreases bs.len(),
{
    if bs.len() > 0 {
        assert(bs.push(b).drop_first() =~= bs.drop_first().push(b));
        assert(bs.push(b)[0] == bs[0]);
        lemma_fold_push(2 * acc + bs[0], bs.drop_first(), b);
    } else {
        assert(seq![b].drop_first() =~= Seq::<nat>::empty());
        assert(bs.push(b) =~= seq![b]);
        assert(fold_bits(acc, seq![b]) == fold_bits(2 * acc + b, Seq::<nat>::empty()));
    }
}

proof fn lemma_num_bits_of_fold(bs: Seq<nat>)
    requires
        all_bits(bs),
    ensures
        num_bits(fold_bits(0, bs), bs.len()) == bs,
        fold_bits(0, bs) < pow2(bs.len()),
    decreases bs.len(),
{
    if bs.len() == 0 {
        lemma2_to64();
        assert(bs =~= Seq::<nat>::empty());
    } else {
        let init = bs.drop_last();
        let b = bs.last();
        assert(init.push(b) =~= bs);
        assert(all_bits(init)) by {
            assert forall|i: int| 0 <= i < init.len() implies #[trigger] init[i] < 2 by {
                assert(init[i] == bs[i]);
            }
        }
        lemma_num_bits_of_fold(init);
        lemma_fold_push(0, init, b);
        let w = fold_bits(0, init);
        assert(b < 2);
        assert((2 * w + b) / 2 == w && (2 * w + b) % 2 == b) by (nonlinear_arith)
            requires
                b < 2,
        ;
        lemma_pow2_unfold(bs.len());
    }
}

proof fn lemma_bits_of_text(t: Seq<char>, pos: nat, v: nat, k: nat)
    requires
        pos + bits_text(v, k).len() <= t.len(),
        t.subrange(pos as int, (pos + bits_text(v, k).len()) as int) == bits_text(v, k),
    ensures
        bits_from(t, pos) == num_bits(v, k) + bits_from(t, pos + bits_text(v, k).len()),
    decreases k,
{
    if k == 0 {
        assert(Seq::<nat>::empty() + bits_from(t, pos) =~= bits_from(t, pos));
    } else {
        let head = bits_text(v / 2, (k - 1) as nat);
        let tok = bit_token(v % 2);
        let whole = bits_text(v, k);
        let mid = pos + head.len();
        assert(whole == head + tok);
        assert(whole.subrange(0, head.len() as int) =~= head);
        assert(whole.subrange(head.len() as int, whole.len() as int) =~= tok);
        assert(t.subrange(pos as int, mid as int) =~= t.subrange(
            pos as int,
            (pos + whole.len()) as int,
        ).subrange(0, head.len() as int));
        lemma_bits_of_text(t, pos, v / 2, (k - 1) as nat);
        assert(t.subrange(mid as int, (mid + tok.len()) as int) =~= t.subrange(
            pos as int,
            (pos + whole.len()) as int,
        ).subrange(head.len() as int, whole.len() as int));
        lemma_scan_bit_token(t, mid, v % 2);
        let end = mid + tok.len();
        assert(bits_from(t, mid) == seq![v % 2] + bits_from(t, end));
        assert(num_bits(v / 2, (k - 1) as nat) + (seq![v % 2] + bits_from(t, end)) =~= num_bits(
            v,
            k,
        ) + bits_from(t, end));
    }
}

proof fn lemma_bits_of_printed(t: Seq<char>, pos: nat, p: Seq<Awatism>)
    requires
        pos + awatisms_text(p).len() == t.len(),
        t.subrange(pos as int, t.len() as int) == awatisms_text(p),
    ensures
        bits_from(t, pos) == program_bits(p),
    decreases p.len(),
{
    if p.len() > 0 {
        let a = p[0];
        let head = bits_text(opcode(a) as nat, 5);
        let (val, w) = operand_of(a);
        let tail = bits_text(val, w);
        let all = awatisms_text(p);
        let rest = p.drop_first();
        assert(all == head + tail + awatisms_text(rest));
        let p1 = pos + head.len();
        let q = p1 + tail.len();
        assert(t.subrange(pos as int, p1 as int) =~= all.subrange(0, head.len() as int));
        assert(all.subrange(0, head.len() as int) =~= head);
        lemma_bits_of_text(t, pos, opcode(a) as nat, 5);
        assert(t.subrange(p1 as int, q as int) =~= all.subrange(
            head.len() as int,
            (head.len() + tail.len()) as int,
        ));
        assert(all.subrange(head.len() as int, (head.len() + tail.len()) as int) =~= tail);
        lemma_bits_of_text(t, p1, val, w);
        assert(t.subrange(q as int, t.len() as int) =~= all.subrange(
            (head.len() + tail.len()) as int,
            all.len() as int,
        ));
        assert(all.subrange((head.len() + tail.len()) as int, all.len() as int) =~= awatisms_text(
            rest,
        ));
        lemma_bits_of_printed(t, q, rest);
        assert(num_bits(opcode(a) as nat, 5) + (num_bits(val, w) + program_bits(rest))
            =~= program_bits(p));
    }
}

proof fn lemma_build_blo_operand(v: nat)
    requires
        v < 256,
    ensures
        ((v as u8 as i8) as u8) as nat == v,
{
    let x = v as u8;
    assert((x as i8) as u8 == x) by (bit_vector);
}

proof fn lemma_bits_of_decoded(s: Seq<char>, pos: nat)
    requires
        pos <= s.len(),
        decode_from(s, pos).1 is None,
    ensures
        bits_from(s, pos) == program_bits(decode_from(s, pos).0),
    decreases s.len() - pos,
{
    lemma_read_advances(s, pos, 5, 0, 0);
    match read_bits(s, pos, 5) {
        BitsRead::Value(code, p1) => {
            lemma_read_bits_taken(s, pos, 5, 0, 0);
            let rs5 = read_seq(s, pos, 5);
            lemma_num_bits_of_fold(rs5);
            lemma2_to64();
            assert(code < 32);
            match decode_instr(s, p1, code) {
                Decoded::Instr(a, q) => {
                    let w = operand_width(code);
                    assert(opcode(a) == code as u8);
                    assert(operand_of(a).1 == w);
                    if w > 0 {
                        lemma_read_advances(s, p1, w, 0, 0);
                        lemma_read_bits_taken(s, p1, w, 0, 0);
                        let rsw = read_seq(s, p1, w);
                        lemma_num_bits_of_fold(rsw);
                        let v = fold_bits(0, rsw);
                        if code == 5 {
                            lemma_build_blo_operand(v);
                        }
                        assert(operand_of(a).0 == v);
                        assert(bits_from(s, p1) == num_bits(v, w) + bits_from(s, q));
                    } else {
                        assert(q == p1);
                        assert(num_bits(0, 0) + bits_from(s, q) =~= bits_from(s, q));
                        assert(operand_of(a) == (0nat, 0nat));
                    }
                    lemma_bits_of_decoded(s, q);
                    let rest = decode_from(s, q).0;
                    assert((seq![a] + rest).drop_first() =~= rest);
                    assert(rs5 + (num_bits(operand_of(a).0, operand_of(a).1) + program_bits(rest))
                        =~= program_bits(seq![a] + rest));
                },
                Decoded::Failed(_) => {},
            }
        },
        BitsRead::Eof => {
            assert(decode_from(s, pos).0 =~= Seq::<Awatism>::empty());
            if let TokenScan::Bit(b, p) = scan_token(s, pos) {
                lemma_read_no_eof(s, p, 5, 1, b);
            }
        },
        _ => {},
    }
}

/// Printing a loaded program gives back the bits of the token stream it was
/// loaded from: its initial 0 bit, then the bits of each instruction.
pub proof fn law_print_after_load(s: Seq<char>)
    requires
        load_spec(s).1 is None,
    ensures
        token_bits(program_text(load_spec(s).0)) == token_bits(s),
{
    let p = load_spec(s).0;
    lemma_read_advances(s, 0, 1, 0, 0);
    lemma_read_bits_taken(s, 0, 1, 0, 0);
    let p0 = read_bits(s, 0, 1)->Value_1;
    let rs1 = read_seq(s, 0, 1);
    lemma_num_bits_of_fold(rs1);
    lemma2_to64();
    assert(rs1 == num_bits(0, 1));
    assert(num_bits(0, 1) =~= seq![0nat]);
    lemma_bits_of_decoded(s, p0);
    let t = program_text(p);
    assert(t.subrange(3, t.len() as int) =~= awatisms_text(p));
    lemma_bits_of_printed(t, 3, p);
    assert(t[0] == 'a' && t[1] == 'w' && t[2] == 'a');
    assert(scan_token(t, 0) == TokenScan::Bit(0, 3));
}

// ---------------------------------------------------------------------------
// Assembling listings

/// Unicode's White_Space characters, which `char::is_whitespace` documents.
pub open spec fn is_white(c: char) -> bool {
    ('\u{9}' <= c && c <= '\u{d}') || c == ' ' || c == '\u{85}' || c == '\u{a0}' || c
        == '\u{1680}' || ('\u{2000}' <= c && c <= '\u{200a}') || c == '\u{2028}' || c == '\u{2029}'
        || c == '\u{202f}' || c == '\u{205f}' || c == '\u{3000}'
}

fn white(c: char) -> (r: bool)
    ensures
        r == is_white(c),
{
    ('\u{9}' <= c && c <= '\u{d}') || c == ' ' || c == '\u{85}' || c == '\u{a0}' || c
        == '\u{1680}' || ('\u{2000}' <= c && c <= '\u{200a}') || c == '\u{2028}' || c == '\u{2029}'
        || c == '\u{202f}' || c == '\u{205f}' || c == '\u{3000}'
}

/// The first index from `i` on that is not whitespace.
pub open spec fn skip_white(cs: Seq<char>, i: nat) -> nat
    decreases cs.len() - i,
{
    if i < cs.len() && is_white(cs[i as int]) {
        skip_white(cs, i + 1)
    } else {
        i
    }
}

/// The length of `cs[..n]` without its trailing whitespace.
pub open spec fn trim_end_len(cs: Seq<char>, n: nat) -> nat
    decreases n,
{
    if n > 0 && n <= cs.len() && is_white(cs[n - 1]) {
        trim_end_len(cs, (n - 1) as nat)
    } else {
        n
    }
}

pub open spec fn trim_start(cs: Seq<char>) -> Seq<char> {
    cs.skip(skip_white(cs, 0) as int)
}

pub open spec fn trim(cs: Seq<char>) -> Seq<char> {
    let t = trim_start(cs);
    t.take(trim_end_len(t, t.len()) as int)
}

/// Where the code of a line ends: at the first `#` outside single and double quotes.
pub open spec fn comment_start(cs: Seq<char>, i: nat, in_q: bool, in_dq: bool) -> nat
    decreases cs.len() - i,
{
    if i >= cs.len() {
        cs.len()
    } else {
        let c = cs[i as int];
        let q = if c == '\u{27}' && !in_dq {
            !in_q
        } else {
            in_q
        };
        let dq = if c == '"' && !in_q {
            !in_dq
        } else {
            in_dq
        };
        if !q && !dq && c == '#' {
            i
        } else {
            comment_start(cs, i + 1, q, dq)
        }
    }
}

/// The first whitespace index from `i` on.
pub open spec fn find_white(cs: Seq<char>, i: nat) -> Option<nat>
    decreases cs.len() - i,
{
    if i >= cs.len() {
        None
    } else if is_white(cs[i as int]) {
        Some(i)
    } else {
        find_white(cs, i + 1)
    }
}

pub open spec fn lower(c: char) -> char {
    if 'A' <= c && c <= 'Z' {
        ((c as u32) + 32) as char
    } else {
        c
    }
}

/// The opcode that a lower-case mnemonic names.
pub open spec fn mnemonic_code(w: Seq<char>) -> Option<nat> {
    if w == seq!['n', 'o', 'p'] {
        Some(0x00)
    } else if w == seq!['p', 'r', 'n'] {
        Some(0x01)
    } else if w == seq!['p', 'r', '1'] {
        Some(0x02)
    } else if w == seq!['r', 'e', 'd'] {
        Some(0x03)
    } else if w == seq!['r', '3', 'd'] {
        Some(0x04)
    } else if w == seq!['b', 'l', 'o'] {
        Some(0x05)
    } else if w == seq!['s', 'b', 'm'] {
        Some(0x06)
    } else if w == seq!['p', 'o', 'p'] {
        Some(0x07)
    } else if w == seq!['d', 'p', 'l'] {
        Some(0x08)
    } else if w == seq!['s', 'r', 'n'] {
        Some(0x09)
    } else if w == seq!['m', 'r', 'g'] {
        Some(0x0A)
    } else if w == seq!['a', 'd', 'd'] {
        Some(0x0B)
    } else if w == seq!['s', 'u', 'b'] {
        Some(0x0C)
    } else if w == seq!['m', 'u', 'l'] {
        Some(0x0D)
    } else if w == seq!['d', 'i', 'v'] {
        Some(0x0E)
    } else if w == seq!['c', 'n', 't'] {
        Some(0x0F)
    } else if w == seq!['l', 'b', 'l'] {
        Some(0x10)
    } else if w == seq!['j', 'm', 'p'] {
        Some(0x11)
    } else if w == seq!['e', 'q', 'l'] {
        Some(0x12)
    } else if w == seq!['l', 's', 's'] {
        Some(0x13)
    } else if w == seq!['g', 'r', '8'] {
        Some(0x14)
    } else if w == seq!['t', 'r', 'm'] {
        Some(0x1F)
    } else {
        None
    }
}

pub open spec fn all_digits(cs: Seq<char>) -> bool {
    forall|i: int| 0 <= i < cs.len() ==> is_digit(#[trigger] cs[i])
}

/// The integer that `cs` spells in decimal, with an optional `+` sign, or
/// `-` when `signed`, as std's `from_str` for integers reads it.
pub open spec fn parse_int(cs: Seq<char>, signed: bool) -> Option<int> {
    if cs.len() == 0 {
        None
    } else if cs[0] == '+' || (cs[0] == '-' && signed) {
        let ds = cs.drop_first();
        if ds.len() > 0 && all_digits(ds) {
            Some(
                if cs[0] == '-' {
                    -(decimal_value(ds) as int)
                } else {
                    decimal_value(ds) as int
                },
            )
        } else {
            None
        }
    } else if all_digits(cs) {
        Some(decimal_value(cs) as int)
    } else {
        None
    }
}

/// `s` with each `\n` escape replaced by a newline, left to right.
pub open spec fn unescape(cs: Seq<char>) -> Seq<char>
    decreases cs.len(),
{
    if cs.len() < 2 {
        cs
    } else if cs[0] == '\\' && cs[1] == 'n' {
        seq!['\n'] + unescape(cs.skip(2))
    } else {
        seq![cs[0]] + unescape(cs.drop_first())
    }
}

/// What assembling one mnemonic gives.
pub ghost enum Assembled {
    Instrs(Seq<Awatism>),
    Unknown,
    MissingArgument,
    InvalidArgument,
    InvalidChar(char),
}

pub open spec fn prepend(p: Seq<Awatism>, r: Assembled) -> Assembled {
    match r {
        Assembled::Instrs(q) => Assembled::Instrs(p + q),
        _ => r,
    }
}

/// The `blo` instructions for the characters of a double-quoted string: one
/// per character, last character first.
pub open spec fn string_blos(inner: Seq<char>) -> Assembled
    decreases inner.len(),
{
    if inner.len() == 0 {
        Assembled::Instrs(Seq::empty())
    } else {
        match awascii_code(inner.last()) {
            None => Assembled::InvalidChar(inner.last()),
            Some(x) => prepend(seq![Awatism::Blo(x as i8)], string_blos(inner.drop_last())),
        }
    }
}

/// What `blo` assembles to for argument `a`, escapes already replaced.
pub open spec fn blo_spec(a: Seq<char>) -> Assembled {
    if a.len() >= 3 && a[0] == '\u{27}' && a.last() == '\u{27}' {
        match awascii_code(a[1]) {
            None => Assembled::InvalidChar(a[1]),
            Some(x) => Assembled::Instrs(seq![Awatism::Blo(x as i8)]),
        }
    } else if a.len() >= 2 && a[0] == '"' && a.last() == '"' {
        string_blos(a.subrange(1, a.len() - 1))
    } else {
        match parse_int(a, true) {
            Some(v) => if -128 <= v <= 127 {
                Assembled::Instrs(seq![Awatism::Blo(v as i8)])
            } else {
                Assembled::InvalidArgument
            },
            None => Assembled::InvalidArgument,
        }
    }
}

/// What mnemonic `s` with argument `args` assembles to.
pub open spec fn word_spec(s: Seq<char>, args: Option<Seq<char>>) -> Assembled {
    match mnemonic_code(s.map_values(|c: char| lower(c))) {
        None => Assembled::Unknown,
        Some(code) => if operand_width(code) == 0 {
            Assembled::Instrs(seq![build_awatism(code, 0)])
        } else {
            match args {
                None => Assembled::MissingArgument,
                Some(a) => if code == 0x05 {
                    blo_spec(unescape(a))
                } else {
                    match parse_int(a, false) {
                        Some(v) => if 0 <= v < 32 {
                            Assembled::Instrs(seq![build_awatism(code, v as nat)])
                        } else {
                            Assembled::InvalidArgument
                        },
                        None => Assembled::InvalidArgument,
                    }
                },
            }
        },
    }
}

/// What one line assembles to: its mnemonic is the code before the first
/// whitespace, after leading whitespace and without its comment; the rest,
/// trimmed, is the argument.
pub open spec fn line_spec(line: Seq<char>) -> Assembled {
    let t = trim_start(line);
    let code = t.take(comment_start(t, 0, false, false) as int);
    match find_white(code, 0) {
        None => if code.len() == 0 {
            Assembled::Instrs(Seq::empty())
        } else {
            word_spec(code, None)
        },
        Some(i) => if i == 0 {
            Assembled::Instrs(Seq::empty())
        } else {
            word_spec(code.take(i as int), Some(trim(code.skip(i as int))))
        },
    }
}

/// The mnemonic of a line, as written.
pub open spec fn line_word(line: Seq<char>) -> Seq<char> {
    let t = trim_start(line);
    let code = t.take(comment_start(t, 0, false, false) as int);
    match find_white(code, 0) {
        None => code,
        Some(i) => code.take(i as int),
    }
}

/// Whether `e` is the error that `a` names, for mnemonic `s`.
pub open spec fn error_is(e: AwawaError, a: Assembled, s: Seq<char>) -> bool {
    match a {
        Assembled::Instrs(_) => false,
        Assembled::Unknown => e matches AwawaError::UnknownAwatismError(m) && m@ == s,
        Assembled::MissingArgument => e is MissingArgumentError,
        Assembled::InvalidArgument => e is InvalidArgumentError,
        Assembled::InvalidChar(c) => e matches AwawaError::InvalidAwasciiCharError(x) && x == c,
    }
}

/// Whether `r` is what `a` says, for mnemonic `s`.
pub open spec fn result_is(r: Result<Vec<Awatism>, AwawaError>, a: Assembled, s: Seq<char>) -> bool {
    match a {
        Assembled::Instrs(p) => r matches Ok(v) && v@ == p,
        _ => r matches Err(e) && error_is(e, a, s),
    }
}

pub open spec fn opt_chars(args: Option<&Vec<char>>) -> Option<Seq<char>> {
    match args {
        Some(a) => Some(a@),
        None => None,
    }
}

/// `parse_int` where its value lies within -1000..=1000.
pub open spec fn small_int(cs: Seq<char>, signed: bool) -> Option<int> {
    match parse_int(cs, signed) {
        Some(v) => if -1000 <= v <= 1000 {
            Some(v)
        } else {
            None
        },
        None => None,
    }
}

fn char_is_digit(c: char) -> (r: bool)
    ensures
        r == is_digit(c),
{
    '0' <= c && c <= '9'
}

/// Reads a decimal integer as `small_int` does.
#[verifier::rlimit(40)]
fn parse_small(cs: &Vec<char>, signed: bool) -> (r: Option<i32>)
    ensures
        match small_int(cs@, signed) {
            Some(v) => r == Some(v as i32),
            None => r is None,
        },
{
    if cs.len() == 0 {
        return None;
    }
    let mut start: usize = 0;
    let negative = cs[0] == '-' && signed;
    if cs[0] == '+' || negative {
        if cs.len() == 1 {
            return None;
        }
        start = 1;
    }
    let ghost ds = cs@.skip(start as int);
    assert(start == 1 ==> ds =~= cs@.drop_first());
    assert(start == 0 ==> ds =~= cs@);
    let mut value: i64 = 0;
    let mut big = false;
    let mut i: usize = start;
    while i < cs.len()
        invariant
            start <= 1,
            ds == cs@.skip(start as int),
            cs@.len() > 0,
            start == 1 ==> ds == cs@.drop_first() && (cs@[0] == '+' || (cs@[0] == '-' && signed)),
            start == 0 ==> ds == cs@ && !(cs@[0] == '+' || (cs@[0] == '-' && signed)),
            negative == (cs@[0] == '-' && signed),
            ds.len() > 0,
            start <= i <= cs@.len(),
            forall|j: int| 0 <= j < i - start ==> is_digit(#[trigger] ds[j]),
            !big ==> value == decimal_value(ds.take(i - start)) && value <= 1000,
            big ==> decimal_value(ds.take(i - start)) > 1000,
        decreases cs@.len() - i,
    {
        let c = cs[i];
        let ghost k = i - start;
        assert(ds[k] == c);
        if !char_is_digit(c) {
            assert(!all_digits(ds));
            return None;
        }
        assert(ds.take(k + 1).drop_last() =~= ds.take(k));
        if !big {
            value = value * 10 + (c as u32 - '0' as u32) as i64;
            if value > 1000 {
                big = true;
            }
        }
        i += 1;
    }
    assert(ds.take(ds.len() as int) =~= ds);
    assert(all_digits(ds));
    if big {
        return None;
    }
    if negative {
        Some((-value) as i32)
    } else {
        Some(value as i32)
    }
}

/// Reads the 5-bit operand of a mnemonic.
fn get(args: Option<&Vec<char>>) -> (r: Result<u8, AwawaError>)
    ensures
        match args {
            None => r matches Err(AwawaError::MissingArgumentError),
            Some(a) => match parse_int(a@, false) {
                Some(v) => if 0 <= v < 32 {
                    r == Ok::<u8, AwawaError>(v as u8)
                } else {
                    r matches Err(AwawaError::InvalidArgumentError)
                },
                None => r matches Err(AwawaError::InvalidArgumentError),
            },
        },
{
    let n = match args {
        None => return Err(AwawaError::MissingArgumentError),
        Some(x) => x,
    };
    match parse_small(n, false) {
        Some(i) => if 0 <= i && i < 32 {
            Ok(i as u8)
        } else {
            Err(AwawaError::InvalidArgumentError)
        },
        None => Err(AwawaError::InvalidArgumentError),
    }
}

/// Replaces each `\n` escape by a newline.
fn unescape_newlines(cs: &Vec<char>) -> (r: Vec<char>)
    ensures
        r@ == unescape(cs@),
{
    let mut out: Vec<char> = Vec::new();
    let mut i: usize = 0;
    assert(cs@.skip(0) =~= cs@);
    while i < cs.len()
        invariant
            i <= cs@.len(),
            out@ + unescape(cs@.skip(i as int)) == unescape(cs@),
        decreases cs@.len() - i,
    {
        let ghost rest = cs@.skip(i as int);
        if i + 1 < cs.len() && cs[i] == '\\' && cs[i + 1] == 'n' {
            out.push('\n');
            assert(rest.skip(2) =~= cs@.skip(i + 2));
            assert(out@ + unescape(cs@.skip(i + 2)) =~= out@.drop_last() + unescape(rest));
            i += 2;
        } else {
            out.push(cs[i]);
            assert(rest.drop_first() =~= cs@.skip(i + 1));
            assert(rest.len() < 2 ==> rest.len() == 1 && unescape(rest) == rest && unescape(
                cs@.skip(i + 1),
            ) =~= Seq::<char>::empty());
            assert(out@ + unescape(cs@.skip(i + 1)) =~= out@.drop_last() + unescape(rest));
            i += 1;
        }
    }
    assert(cs@.skip(i as int) =~= Seq::<char>::empty());
    assert(out@ + Seq::<char>::empty() =~= out@);
    out
}

/// The instruction with opcode `code` and operand `arg`.
fn build(code: u8, arg: u8) -> (r: Awatism)
    ensures
        r == build_awatism(code as nat, arg as nat),
{
    match code {
        0x00 => Awatism::Nop,
        0x01 => Awatism::Prn,
        0x02 => Awatism::Pr1,
        0x03 => Awatism::Red,
        0x04 => Awatism::R3d,
        0x05 => Awatism::Blo(arg as i8),
        0x06 => Awatism::Sbm(arg),
        0x07 => Awatism::Pop,
        0x08 => Awatism::Dpl,
        0x09 => Awatism::Srn(arg),
        0x0A => Awatism::Mrg,
        0x0B => Awatism::Add,
        0x0C => Awatism::Sub,
        0x0D => Awatism::Mul,
        0x0E => Awatism::Div,
        0x0F => Awatism::Cnt,
        0x10 => Awatism::Lbl(arg),
        0x11 => Awatism::Jmp(arg),
        0x12 => Awatism::Eql,
        0x13 => Awatism::Lss,
        0x14 => Awatism::Gr8,
        _ => Awatism::Trm,
    }
}

fn is_word(w: &Vec<char>, a: char, b: char, c: char) -> (r: bool)
    ensures
        r == (w@ == seq![a, b, c]),
{
    let r = w.len() == 3 && w[0] == a && w[1] == b && w[2] == c;
    assert(r ==> w@ =~= seq![a, b, c]);
    r
}

/// The opcode that lower-case mnemonic `w` names.
fn mnemonic(w: &Vec<char>) -> (r: Option<u8>)
    ensures
        match mnemonic_code(w@) {
            Some(c) => r == Some(c as u8),
            None => r is None,
        },
{
    if is_word(w, 'n', 'o', 'p') {
        Some(0x00)
    } else if is_word(w, 'p', 'r', 'n') {
        Some(0x01)
    } else if is_word(w, 'p', 'r', '1') {
        Some(0x02)
    } else if is_word(w, 'r', 'e', 'd') {
        Some(0x03)
    } else if is_word(w, 'r', '3', 'd') {
        Some(0x04)
    } else if is_word(w, 'b', 'l', 'o') {
        Some(0x05)
    } else if is_word(w, 's', 'b', 'm') {
        Some(0x06)
    } else if is_word(w, 'p', 'o', 'p') {
        Some(0x07)
    } else if is_word(w, 'd', 'p', 'l') {
        Some(0x08)
    } else if is_word(w, 's', 'r', 'n') {
        Some(0x09)
    } else if is_word(w, 'm', 'r', 'g') {
        Some(0x0A)
    } else if is_word(w, 'a', 'd', 'd') {
        Some(0x0B)
    } else if is_word(w, 's', 'u', 'b') {
        Some(0x0C)
    } else if is_word(w, 'm', 'u', 'l') {
        Some(0x0D)
    } else if is_word(w, 'd', 'i', 'v') {
        Some(0x0E)
    } else if is_word(w, 'c', 'n', 't') {
        Some(0x0F)
    } else if is_word(w, 'l', 'b', 'l') {
        Some(0x10)
    } else if is_word(w, 'j', 'm', 'p') {
        Some(0x11)
    } else if is_word(w, 'e', 'q', 'l') {
        Some(0x12)
    } else if is_word(w, 'l', 's', 's') {
        Some(0x13)
    } else if is_word(w, 'g', 'r', '8') {
        Some(0x14)
    } else if is_word(w, 't', 'r', 'm') {
        Some(0x1F)
    } else {
        None
    }
}

fn lower_char(c: char) -> (r: char)
    ensures
        r == lower(c),
{
    if 'A' <= c && c <= 'Z' {
        ((c as u8) + 32) as char
    } else {
        c
    }
}

proof fn lemma_prepend_prepend(p: Seq<Awatism>, q: Seq<Awatism>, a: Assembled)
    ensures
        prepend(p, prepend(q, a)) == prepend(p + q, a),
{
    if let Assembled::Instrs(x) = a {
        assert(p + (q + x) =~= (p + q) + x);
    }
}

proof fn lemma_string_blos_known(inner: Seq<char>)
    ensures
        !(string_blos(inner) is Unknown),
    decreases inner.len(),
{
    if inner.len() > 0 {
        lemma_string_blos_known(inner.drop_last());
    }
}

fn single(a: Awatism) -> (r: Vec<Awatism>)
    ensures
        r@ == seq![a],
{
    let mut v: Vec<Awatism> = Vec::new();
    v.push(a);
    assert(v@ =~= seq![a]);
    v
}

/// The `blo` instructions of a double-quoted string `a`, last character first.
fn string_awatisms(a: &Vec<char>) -> (r: Result<Vec<Awatism>, AwawaError>)
    requires
        a@.len() >= 2,
    ensures
        result_is(r, string_blos(a@.subrange(1, a@.len() - 1)), Seq::empty()),
{
    let n = a.len();
    let ghost inner = a@.subrange(1, n - 1);
    let mut out: Vec<Awatism> = Vec::new();
    let mut k: usize = n - 1;
    assert(a@.subrange(1, k as int) =~= inner);
    assert(Seq::<Awatism>::empty() + Seq::<Awatism>::empty() =~= Seq::<Awatism>::empty());
    while k > 1
        invariant
            n == a@.len(),
            1 <= k <= n - 1,
            inner == a@.subrange(1, n - 1),
            string_blos(inner) == prepend(out@, string_blos(a@.subrange(1, k as int))),
        decreases k,
    {
        let c = a[k - 1];
        let ghost part = a@.subrange(1, k as int);
        assert(part.last() == c);
        assert(part.drop_last() =~= a@.subrange(1, k - 1));
        match ord(c) {
            None => {
                return Err(AwawaError::InvalidAwasciiCharError(c));
            },
            Some(x) => {
                let ghost before = out@;
                out.push(Awatism::Blo(x as i8));
                proof {
                    lemma_prepend_prepend(before, seq![Awatism::Blo(x as i8)], string_blos(a@.subrange(1, k - 1)));
                    assert(before + seq![Awatism::Blo(x as i8)] =~= out@);
                }
            },
        }
        k -= 1;
    }
    assert(a@.subrange(1, 1) =~= Seq::<char>::empty());
    assert(out@ + Seq::<Awatism>::empty() =~= out@);
    Ok(out)
}

/// Assembles `blo` with argument `args`.
fn blo_awatisms(args: Option<&Vec<char>>) -> (r: Result<Vec<Awatism>, AwawaError>)
    ensures
        match opt_chars(args) {
            None => r matches Err(AwawaError::MissingArgumentError),
            Some(a) => result_is(r, blo_spec(unescape(a)), Seq::empty()),
        },
{
    let a = match args {
        None => return Err(AwawaError::MissingArgumentError),
        Some(x) => unescape_newlines(x),
    };
    let n = a.len();
    if n >= 3 && a[0] == '\u{27}' && a[n - 1] == '\u{27}' {
        let c = a[1];
        return match ord(c) {
            None => Err(AwawaError::InvalidAwasciiCharError(c)),
            Some(x) => Ok(single(Awatism::Blo(x as i8))),
        };
    }
    if n >= 2 && a[0] == '"' && a[n - 1] == '"' {
        return string_awatisms(&a);
    }
    match parse_small(&a, true) {
        Some(i) => if -128 <= i && i <= 127 {
            Ok(single(Awatism::Blo(i as i8)))
        } else {
            Err(AwawaError::InvalidArgumentError)
        },
        None => Err(AwawaError::InvalidArgumentError),
    }
}

/// Assembles mnemonic `s`, matched without regard to ASCII case, with
/// argument `args`.
pub fn string_to_awatism(s: &Vec<char>, args: Option<&Vec<char>>) -> (r: Result<
    Vec<Awatism>,
    AwawaError,
>)
    ensures
        result_is(r, word_spec(s@, opt_chars(args)), s@),
{
    let mut low: Vec<char> = Vec::new();
    let mut i: usize = 0;
    while i < s.len()
        invariant
            i <= s@.len(),
            low@ =~= s@.take(i as int).map_values(|c: char| lower(c)),
        decreases s@.len() - i,
    {
        low.push(lower_char(s[i]));
        assert(s@.take(i + 1).map_values(|c: char| lower(c)) =~= s@.take(i as int).map_values(
            |c: char| lower(c),
        ).push(lower(s@[i as int])));
        i += 1;
    }
    assert(s@.take(i as int) =~= s@);
    let code = match mnemonic(&low) {
        None => return Err(AwawaError::UnknownAwatismError(string_of(s))),
        Some(c) => c,
    };
    if code == 0x05 {
        proof {
            if let Some(a) = opt_chars(args) {
                let u = unescape(a);
                if u.len() >= 2 {
                    lemma_string_blos_known(u.subrange(1, u.len() - 1));
                }
            }
        }
        return blo_awatisms(args);
    }
    if code == 0x06 || code == 0x09 || code == 0x10 || code == 0x11 {
        let arg = get(args)?;
        return Ok(single(build(code, arg)));
    }
    Ok(single(build(code, 0)))
}

/// The characters `cs[a..b]`.
fn slice(cs: &Vec<char>, a: usize, b: usize) -> (r: Vec<char>)
    requires
        a <= b <= cs@.len(),
    ensures
        r@ == cs@.subrange(a as int, b as int),
{
    let mut out: Vec<char> = Vec::new();
    let mut i: usize = a;
    while i < b
        invariant
            a <= i <= b <= cs@.len(),
            out@ =~= cs@.subrange(a as int, i as int),
        decreases b - i,
    {
        out.push(cs[i]);
        i += 1;
    }
    out
}

fn skip_white_from(cs: &Vec<char>, i: usize) -> (r: usize)
    requires
        i <= cs@.len(),
    ensures
        r == skip_white(cs@, i as nat),
        i <= r <= cs@.len(),
{
    let mut j = i;
    while j < cs.len() && white(cs[j])
        invariant
            i <= j <= cs@.len(),
            skip_white(cs@, i as nat) == skip_white(cs@, j as nat),
        decreases cs@.len() - j,
    {
        j += 1;
    }
    j
}

/// `cs` without leading and trailing whitespace.
fn trim_chars(cs: &Vec<char>) -> (r: Vec<char>)
    ensures
        r@ == trim(cs@),
{
    let a = skip_white_from(cs, 0);
    let t = slice(cs, a, cs.len());
    assert(t@ =~= trim_start(cs@));
    let mut n = t.len();
    while n > 0 && white(t[n - 1])
        invariant
            n <= t@.len(),
            trim_end_len(t@, t@.len()) == trim_end_len(t@, n as nat),
        decreases n,
    {
        n -= 1;
    }
    slice(&t, 0, n)
}

/// Assembles one line of a listing.
pub fn handle_line(line: &Vec<char>) -> (r: Result<Vec<Awatism>, AwawaError>)
    ensures
        result_is(r, line_spec(line@), line_word(line@)),
{
    let start = skip_white_from(line, 0);
    let t = slice(line, start, line.len());
    assert(t@ =~= trim_start(line@));
    let mut in_q = false;
    let mut in_dq = false;
    let mut end: usize = 0;
    let mut done = false;
    while !done && end < t.len()
        invariant
            end <= t@.len(),
            done ==> comment_start(t@, 0, false, false) == end,
            !done ==> comment_start(t@, 0, false, false) == comment_start(
                t@,
                end as nat,
                in_q,
                in_dq,
            ),
        decreases t@.len() - end + (if done {
            0int
        } else {
            1int
        }),
    {
        let x = t[end];
        if x == '\u{27}' && !in_dq {
            in_q = !in_q;
        } else if x == '"' && !in_q {
            in_dq = !in_dq;
        }
        if !in_q && !in_dq && x == '#' {
            done = true;
        } else {
            end += 1;
        }
    }
    let code = slice(&t, 0, end);
    assert(code@ =~= t@.take(comment_start(t@, 0, false, false) as int));
    let mut w: usize = 0;
    while w < code.len() && !white(code[w])
        invariant
            w <= code@.len(),
            find_white(code@, 0) == find_white(code@, w as nat),
        decreases code@.len() - w,
    {
        w += 1;
    }
    if w == code.len() {
        if code.len() == 0 {
            return Ok(Vec::new());
        }
        return string_to_awatism(&code, None);
    }
    if w == 0 {
        return Ok(Vec::new());
    }
    let word = slice(&code, 0, w);
    let rest = slice(&code, w, code.len());
    assert(rest@ =~= code@.skip(w as int));
    assert(word@ =~= code@.take(w as int));
    let args = trim_chars(&rest);
    string_to_awatism(&word, Some(&args))
}

// ---------------------------------------------------------------------------
// Listings

/// The first newline at or after `i`.
pub open spec fn newline_from(t: Seq<char>, i: nat) -> Option<nat>
    decreases t.len() - i,
{
    if i >= t.len() {
        None
    } else if t[i as int] == '\n' {
        Some(i)
    } else {
        newline_from(t, i + 1)
    }
}

/// Where the line that starts at `pos` ends: at its newline, or at the end of `t`.
pub open spec fn line_end(t: Seq<char>, pos: nat) -> nat {
    match newline_from(t, pos) {
        Some(i) => i,
        None => t.len(),
    }
}

proof fn lemma_newline_from(t: Seq<char>, pos: nat)
    ensures
        newline_from(t, pos) matches Some(i) ==> pos <= i < t.len() && t[i as int] == '\n',
    decreases t.len() - pos,
{
    if pos < t.len() && t[pos as int] != '\n' {
        lemma_newline_from(t, pos + 1);
    }
}

pub open spec fn strip_cr(l: Seq<char>) -> Seq<char> {
    if l.len() > 0 && l.last() == '\r' {
        l.drop_last()
    } else {
        l
    }
}

/// What the lines of `t` from `pos` on assemble to: the instructions before
/// the first line that fails, and that line's outcome and mnemonic.
pub open spec fn assemble_from(t: Seq<char>, pos: nat) -> (Seq<Awatism>, Option<(Assembled, Seq<char>)>)
    decreases t.len() - pos,
{
    if pos >= t.len() {
        (Seq::empty(), None)
    } else {
        let end = line_end(t, pos);
        let line = strip_cr(t.subrange(pos as int, end as int));
        match line_spec(line) {
            Assembled::Instrs(p) => if pos <= end < t.len() {
                let rest = assemble_from(t, end + 1);
                (p + rest.0, rest.1)
            } else {
                (p, None)
            },
            a => (Seq::empty(), Some((a, line_word(line)))),
        }
    }
}

/// Assembles a listing, line by line, appending to `dst`; stops at the
/// first line that fails, keeping what the lines before it gave.
pub fn awassemble(src: &str, dst: &mut Vec<Awatism>) -> (r: Result<(), AwawaError>)
    ensures
        final(dst)@ == old(dst)@ + assemble_from(src@, 0).0,
        match assemble_from(src@, 0).1 {
            None => r is Ok,
            Some((a, w)) => r matches Err(e) && error_is(e, a, w),
        },
{
    let t = chars_of(src);
    let mut pos: usize = 0;
    while pos < t.len()
        invariant
            t@ == src@,
            pos <= t@.len(),
            old(dst)@ + assemble_from(src@, 0).0 == dst@ + assemble_from(src@, pos as nat).0,
            assemble_from(src@, 0).1 == assemble_from(src@, pos as nat).1,
        decreases t@.len() - pos,
    {
        let mut end = pos;
        while end < t.len() && t[end] != '\n'
            invariant
                pos <= end <= t@.len(),
                newline_from(t@, pos as nat) == newline_from(t@, end as nat),
            decreases t@.len() - end,
        {
            end += 1;
        }
        let mut stop = end;
        if stop > pos && t[stop - 1] == '\r' {
            stop -= 1;
        }
        let line = slice(&t, pos, stop);
        assert(line@ =~= strip_cr(t@.subrange(pos as int, end as int)));
        proof {
            lemma_newline_from(t@, pos as nat);
        }
        let mut res = handle_line(&line)?;
        dst.append(&mut res);
        assert(old(dst)@ + assemble_from(src@, 0).0 =~= dst@ + assemble_from(src@, (end + 1) as nat).0);
        if end < t.len() {
            pos = end + 1;
        } else {
            pos = t.len();
        }
    }
    proof {
        assert(dst@ + Seq::<Awatism>::empty() =~= dst@);
    }
    Ok(())
}

} // verus!

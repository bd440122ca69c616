use awatistic::{
    awascii, awassemble, handle_line, ord, print_awatisms, string_to_awatism, AwaCPU, AwawaError,
    AwawaLoadError, Awatism, BubbleItem, Output,
};

fn items(cpu: &AwaCPU) -> Vec<&BubbleItem> {
    let abyss = cpu.get_bubble_abyss();
    (0..abyss.len()).map(|i| abyss.get(i).unwrap()).collect()
}

fn scalars(cpu: &AwaCPU) -> Vec<i32> {
    items(cpu)
        .into_iter()
        .map(|b| match b {
            BubbleItem::Bubble(v) => *v,
            BubbleItem::DoubleBubble(_) => panic!("expected a scalar"),
        })
        .collect()
}

fn double(vals: &[i32]) -> BubbleItem {
    BubbleItem::DoubleBubble(vals.iter().map(|v| BubbleItem::Bubble(*v)).collect())
}

fn loaded(program: Vec<Awatism>) -> AwaCPU {
    let tokens = print_awatisms(program);
    let mut cpu = AwaCPU::new(&tokens, 0);
    cpu.load_program().unwrap();
    cpu
}

fn chars(s: &str) -> Vec<char> {
    s.chars().collect()
}

#[test]
fn push_order_scenario() {
    let mut cpu = loaded(vec![Awatism::Blo(1), Awatism::Blo(2), Awatism::Blo(3)]);
    for _ in 0..3 {
        assert!(matches!(cpu.execute_awatism(None), Ok(Output::Nothing)));
    }
    assert_eq!(scalars(&cpu), vec![3, 2, 1]);
    assert!(matches!(cpu.execute_awatism(None), Err(AwawaError::EndOfProgramError())));
}

#[test]
fn submerge_scenario() {
    let mut cpu = AwaCPU::new("", 0);
    for v in 1..=5 {
        cpu.blo(v).unwrap();
    }
    cpu.sbm(0).unwrap();
    assert_eq!(scalars(&cpu), vec![4, 3, 2, 1, 5]);
    cpu.sbm(2).unwrap();
    assert_eq!(scalars(&cpu), vec![3, 2, 4, 1, 5]);
}

#[test]
fn submerge_errors() {
    let mut cpu = AwaCPU::new("", 0);
    assert!(matches!(cpu.sbm(0), Err(AwawaError::BubbleAbyssEmpty)));
    cpu.blo(1).unwrap();
    cpu.blo(2).unwrap();
    assert!(matches!(cpu.sbm(2), Err(AwawaError::BubbleAbyssOutOfBounds)));
    assert_eq!(scalars(&cpu), vec![2, 1]);
    cpu.sbm(1).unwrap();
    assert_eq!(scalars(&cpu), vec![1, 2]);
}

#[test]
fn surround_scenario() {
    let mut cpu = AwaCPU::new("", 0);
    for v in 1..=4 {
        cpu.blo(v).unwrap();
    }
    cpu.srn(3).unwrap();
    assert_eq!(items(&cpu), vec![&double(&[4, 3, 2]), &BubbleItem::Bubble(1)]);
}

#[test]
fn surround_zero_and_too_many() {
    let mut cpu = AwaCPU::new("", 0);
    cpu.blo(7).unwrap();
    cpu.srn(0).unwrap();
    assert_eq!(items(&cpu), vec![&double(&[]), &BubbleItem::Bubble(7)]);
    assert!(matches!(cpu.srn(3), Err(AwawaError::BubbleAbyssOutOfBounds)));
    assert_eq!(cpu.get_bubble_abyss().len(), 2);
}

#[test]
fn surround_then_pop_restores() {
    let mut cpu = AwaCPU::new("", 0);
    for v in [5, 6, 7, 8] {
        cpu.blo(v).unwrap();
    }
    let before: Vec<BubbleItem> = items(&cpu).into_iter().map(|b| b.deep_clone()).collect();
    cpu.srn(3).unwrap();
    cpu.pop().unwrap();
    let after: Vec<BubbleItem> = items(&cpu).into_iter().map(|b| b.deep_clone()).collect();
    assert_eq!(before, after);
}

#[test]
fn duplicate_grows_by_one() {
    let mut cpu = AwaCPU::new("", 0);
    assert!(matches!(cpu.dpl(), Err(AwawaError::BubbleAbyssEmpty)));
    cpu.blo(1).unwrap();
    cpu.blo(2).unwrap();
    cpu.srn(2).unwrap();
    cpu.dpl().unwrap();
    assert_eq!(cpu.get_bubble_abyss().len(), 2);
    assert_eq!(items(&cpu), vec![&double(&[2, 1]), &double(&[2, 1])]);
}

#[test]
fn pop_errors_on_empty() {
    let mut cpu = AwaCPU::new("", 0);
    assert!(matches!(cpu.pop(), Err(AwawaError::BubbleAbyssEmpty)));
    assert!(matches!(cpu.add(), Err(AwawaError::BubbleAbyssEmpty)));
    assert!(matches!(cpu.mrg(), Err(AwawaError::BubbleAbyssEmpty)));
    assert!(matches!(cpu.cnt(), Err(AwawaError::BubbleAbyssEmpty)));
    assert!(matches!(cpu.prn(), Err(AwawaError::BubbleAbyssEmpty)));
    assert!(matches!(cpu.pr1(), Err(AwawaError::BubbleAbyssEmpty)));
}

#[test]
fn elementwise_equal_lengths() {
    let mut cpu = AwaCPU::new("", 0);
    for v in [6, 5, 4] {
        cpu.blo(v).unwrap();
    }
    cpu.srn(3).unwrap();
    for v in [30, 20, 10] {
        cpu.blo(v).unwrap();
    }
    cpu.srn(3).unwrap();
    cpu.sub().unwrap();
    assert_eq!(items(&cpu), vec![&double(&[10 - 4, 20 - 5, 30 - 6])]);
}

#[test]
fn wrapping_arithmetic() {
    let mut cpu = AwaCPU::new("", 0);
    cpu.blo(100).unwrap();
    cpu.blo(100).unwrap();
    cpu.mul().unwrap();
    cpu.dpl().unwrap();
    cpu.mul().unwrap();
    cpu.dpl().unwrap();
    cpu.mul().unwrap();
    let x = 10000i32.wrapping_mul(10000);
    assert_eq!(scalars(&cpu), vec![x.wrapping_mul(x)]);
}

#[test]
fn division_scenario() {
    let mut cpu = AwaCPU::new("", 0);
    cpu.blo(2).unwrap();
    cpu.blo(11).unwrap();
    cpu.blo(20).unwrap();
    cpu.srn(2).unwrap();
    cpu.div().unwrap();
    assert_eq!(items(&cpu), vec![&BubbleItem::DoubleBubble(
        vec![double(&[10, 5]), double(&[0, 1])].into()
    )]);
}

#[test]
fn division_truncates_toward_zero() {
    let mut cpu = AwaCPU::new("", 0);
    cpu.blo(2).unwrap();
    cpu.blo(-7).unwrap();
    cpu.div().unwrap();
    assert_eq!(items(&cpu), vec![&double(&[-3, -1])]);
}

#[test]
fn division_by_zero_is_an_error() {
    let mut cpu = AwaCPU::new("", 0);
    cpu.blo(0).unwrap();
    cpu.blo(3).unwrap();
    cpu.blo(4).unwrap();
    cpu.srn(2).unwrap();
    assert!(matches!(cpu.div(), Err(AwawaError::DivisionByZeroError)));
    assert_eq!(items(&cpu), vec![&double(&[4, 3]), &BubbleItem::Bubble(0)]);
}

#[test]
fn merge_versus_add() {
    let mut cpu = AwaCPU::new("", 0);
    for v in [3, 2, 1] {
        cpu.blo(v).unwrap();
    }
    cpu.srn(3).unwrap();
    cpu.blo(5).unwrap();
    cpu.dpl().unwrap();
    cpu.sbm(2).unwrap();
    // abyss: 5, (1, 2, 3), 5
    cpu.mrg().unwrap();
    assert_eq!(items(&cpu), vec![&double(&[5, 1, 2, 3]), &BubbleItem::Bubble(5)]);

    let mut cpu = AwaCPU::new("", 0);
    for v in [3, 2, 1] {
        cpu.blo(v).unwrap();
    }
    cpu.srn(3).unwrap();
    cpu.blo(5).unwrap();
    cpu.add().unwrap();
    assert_eq!(items(&cpu), vec![&double(&[6, 7, 8])]);
}

#[test]
fn count_pushes_length() {
    let mut cpu = AwaCPU::new("", 0);
    cpu.blo(9).unwrap();
    cpu.cnt().unwrap();
    assert_eq!(scalars(&cpu), vec![0, 9]);
    cpu.srn(2).unwrap();
    cpu.cnt().unwrap();
    assert_eq!(items(&cpu), vec![&BubbleItem::Bubble(2), &double(&[0, 9])]);
}

#[test]
fn preamble_failure() {
    let mut cpu = AwaCPU::new("wa wa", 0);
    assert_eq!(cpu.load_program(), Err(AwawaLoadError::MissingInitialAwaError));
    let mut cpu = AwaCPU::new("", 0);
    assert_eq!(cpu.load_program(), Err(AwawaLoadError::MissingInitialAwaError));
}

#[test]
fn load_errors() {
    let mut cpu = AwaCPU::new("awa awa ab", 0);
    assert_eq!(cpu.load_program(), Err(AwawaLoadError::AwawaParseError));
    // blo with only three operand bits
    let mut cpu = AwaCPU::new("awa awa awawa awawa awa awa awa", 0);
    assert_eq!(cpu.load_program(), Err(AwawaLoadError::MalformedAwatismError));
    // opcode 0x15
    let mut cpu = AwaCPU::new("awa wa awawa awawa", 0);
    assert_eq!(cpu.load_program(), Err(AwawaLoadError::UnknownAwatismError(0x15)));
    // a truncated opcode
    let mut cpu = AwaCPU::new("awa awa awa", 0);
    assert_eq!(cpu.load_program(), Err(AwawaLoadError::MalformedAwatismError));
}

#[test]
fn load_keeps_instructions_before_an_error() {
    let mut cpu = AwaCPU::new("awa awa awa awa awa awa wa wa wa wa wa wa", 0);
    assert_eq!(cpu.load_program(), Err(AwawaLoadError::MalformedAwatismError));
    assert_eq!(cpu.get_program(), &vec![Awatism::Nop, Awatism::Trm]);
}

#[test]
fn tokens_ignore_other_characters() {
    let mut cpu = AwaCPU::new("AWA, awa! AwA... aWa awa WA.", 0);
    cpu.load_program().unwrap();
    assert_eq!(cpu.get_program(), &vec![Awatism::Prn]);
}

#[test]
fn printed_tokens() {
    assert_eq!(print_awatisms(vec![]), "awa");
    assert_eq!(print_awatisms(vec![Awatism::Nop]), "awa awa awa awa awa awa");
    assert_eq!(
        print_awatisms(vec![Awatism::Blo(1)]),
        "awa awa awawa awawa awa awa awa awa awa awa awawa"
    );
    assert_eq!(print_awatisms(vec![Awatism::Trm]), "awawawawawawa");
}

#[test]
fn load_after_print_round_trip() {
    let program = vec![
        Awatism::Nop,
        Awatism::Prn,
        Awatism::Pr1,
        Awatism::Red,
        Awatism::R3d,
        Awatism::Blo(-128),
        Awatism::Blo(127),
        Awatism::Sbm(31),
        Awatism::Pop,
        Awatism::Dpl,
        Awatism::Srn(5),
        Awatism::Mrg,
        Awatism::Add,
        Awatism::Sub,
        Awatism::Mul,
        Awatism::Div,
        Awatism::Cnt,
        Awatism::Lbl(7),
        Awatism::Jmp(7),
        Awatism::Eql,
        Awatism::Lss,
        Awatism::Gr8,
        Awatism::Trm,
    ];
    let cpu = loaded(program.clone());
    assert_eq!(cpu.get_program(), &program);
}

#[test]
fn jump_scenario() {
    let mut cpu = loaded(vec![Awatism::Lbl(7), Awatism::Blo(1), Awatism::Jmp(7)]);
    for round in 0..10 {
        assert_eq!(cpu.get_ip(), 0);
        cpu.execute_awatism(None).unwrap();
        assert_eq!(cpu.get_ip(), 1);
        cpu.execute_awatism(None).unwrap();
        assert_eq!(cpu.get_ip(), 2);
        cpu.execute_awatism(None).unwrap();
        assert_eq!(cpu.get_bubble_abyss().len(), round + 1);
    }
    assert_eq!(scalars(&cpu), vec![1; 10]);
}

#[test]
fn unknown_label() {
    let mut cpu = loaded(vec![Awatism::Jmp(3)]);
    assert!(matches!(cpu.execute_awatism(None), Err(AwawaError::InvalidLabelError(3))));
    assert_eq!(cpu.get_ip(), 0);
}

#[test]
fn last_label_binding_wins() {
    let mut cpu = loaded(vec![Awatism::Lbl(1), Awatism::Lbl(1), Awatism::Jmp(1)]);
    cpu.jmp(1).unwrap();
    assert_eq!(cpu.get_ip(), 1);
}

#[test]
fn comparison_skips_when_false() {
    let mut cpu = loaded(vec![
        Awatism::Blo(1),
        Awatism::Blo(2),
        Awatism::Eql,
        Awatism::Nop,
        Awatism::Lss,
        Awatism::Nop,
        Awatism::Gr8,
    ]);
    cpu.execute_awatism(None).unwrap();
    cpu.execute_awatism(None).unwrap();
    assert_eq!(cpu.get_ip(), 2);
    cpu.execute_awatism(None).unwrap();
    assert_eq!(cpu.get_ip(), 4);
    // 2 < 1 is false as well
    cpu.execute_awatism(None).unwrap();
    assert_eq!(cpu.get_ip(), 6);
    // 2 > 1 holds
    cpu.execute_awatism(None).unwrap();
    assert_eq!(cpu.get_ip(), 7);
    assert_eq!(scalars(&cpu), vec![2, 1]);
}

#[test]
fn comparison_with_double_bubble_is_false() {
    let mut cpu = AwaCPU::new("", 0);
    cpu.blo(1).unwrap();
    cpu.srn(1).unwrap();
    cpu.blo(1).unwrap();
    cpu.eql().unwrap();
    assert_eq!(cpu.get_ip(), 1);
    let mut cpu = AwaCPU::new("", 0);
    cpu.blo(1).unwrap();
    assert!(matches!(cpu.eql(), Err(AwawaError::BubbleAbyssEmpty)));
}

#[test]
fn trm_ends_the_program() {
    let mut cpu = loaded(vec![Awatism::Trm, Awatism::Nop]);
    assert!(matches!(cpu.execute_awatism(None), Err(AwawaError::EndOfProgramError())));
    assert_eq!(cpu.get_ip(), 0);
}

#[test]
fn prn_and_pr1_output() {
    let mut cpu = loaded(vec![Awatism::Blo(2), Awatism::Blo(63), Awatism::Srn(2), Awatism::Prn]);
    for _ in 0..3 {
        cpu.execute_awatism(None).unwrap();
    }
    match cpu.execute_awatism(None) {
        Ok(Output::Text(t)) => assert_eq!(t, vec!['\n', 'a']),
        other => panic!("unexpected {:?}", other),
    }
    let mut cpu = loaded(vec![Awatism::Blo(-4), Awatism::Blo(70), Awatism::Srn(2), Awatism::Pr1]);
    for _ in 0..3 {
        cpu.execute_awatism(None).unwrap();
    }
    match cpu.execute_awatism(None) {
        Ok(Output::Numbers(v)) => assert_eq!(v, vec![70, -4]),
        other => panic!("unexpected {:?}", other),
    }
}

#[test]
fn prn_rejects_invalid_code() {
    let mut cpu = AwaCPU::new("", 0);
    cpu.blo(64).unwrap();
    assert!(matches!(cpu.prn(), Err(AwawaError::InvalidAwasciiCodeError(64))));
}

#[test]
fn red_reads_a_line() {
    let mut cpu = loaded(vec![Awatism::Red]);
    assert!(cpu.wants_line());
    cpu.execute_awatism(Some("Aw z\n")).unwrap();
    assert_eq!(items(&cpu), vec![&double(&[0, 3, 52, 63])]);
    let mut cpu = loaded(vec![Awatism::Red]);
    assert!(matches!(cpu.execute_awatism(None), Err(AwawaError::ReadLineError)));
}

#[test]
fn r3d_reads_a_number() {
    let mut cpu = AwaCPU::new("", 0);
    cpu.r3d("42\n").unwrap();
    cpu.r3d("12abc\n").unwrap();
    assert_eq!(scalars(&cpu), vec![12, 42]);
    match cpu.r3d("abc\n") {
        Err(AwawaError::NotANumberError(s)) => assert_eq!(s, ""),
        other => panic!("unexpected {:?}", other),
    }
    match cpu.r3d("99999999999\n") {
        Err(AwawaError::NotANumberError(s)) => assert_eq!(s, "99999999999"),
        other => panic!("unexpected {:?}", other),
    }
    cpu.r3d("2147483647").unwrap();
    assert_eq!(scalars(&cpu)[0], i32::MAX);
}

#[test]
fn awascii_table() {
    assert_eq!(awascii(0).unwrap(), 'A');
    assert_eq!(awascii(2).unwrap(), 'a');
    assert_eq!(awascii(42).unwrap(), '0');
    assert_eq!(awascii(63).unwrap(), '\n');
    assert!(matches!(awascii(64), Err(AwawaError::InvalidAwasciiCodeError(64))));
    assert!(matches!(awascii(-1), Err(AwawaError::InvalidAwasciiCodeError(-1))));
    assert_eq!(ord('A'), Some(0));
    assert_eq!(ord('~'), Some(59));
    assert_eq!(ord('\n'), Some(63));
    assert_eq!(ord('z'), None);
    for i in 0..64 {
        assert_eq!(ord(awascii(i).unwrap()), Some(i));
    }
}

#[test]
fn assemble_listing() {
    let src = "  BLO 5 # five\n\nblo 'a'\r\nblo \"Hi\"\n# only a comment\nsrn 2\nblo '\\n'\nLbl 3\njmp 3\ntrm";
    let mut out = vec![];
    awassemble(src, &mut out).unwrap();
    assert_eq!(
        out,
        vec![
            Awatism::Blo(5),
            Awatism::Blo(2),
            Awatism::Blo(21),
            Awatism::Blo(8),
            Awatism::Srn(2),
            Awatism::Blo(63),
            Awatism::Lbl(3),
            Awatism::Jmp(3),
            Awatism::Trm,
        ]
    );
}

#[test]
fn assemble_errors() {
    let mut out = vec![];
    match awassemble("nop\nfoo 1\nnop", &mut out) {
        Err(AwawaError::UnknownAwatismError(s)) => assert_eq!(s, "foo"),
        other => panic!("unexpected {:?}", other),
    }
    assert_eq!(out, vec![Awatism::Nop]);
    assert!(matches!(handle_line(&chars("sbm")), Err(AwawaError::MissingArgumentError)));
    assert!(matches!(handle_line(&chars("sbm 256")), Err(AwawaError::InvalidArgumentError)));
    assert!(matches!(handle_line(&chars("sbm 32")), Err(AwawaError::InvalidArgumentError)));
    assert!(matches!(handle_line(&chars("srn 40")), Err(AwawaError::InvalidArgumentError)));
    assert!(matches!(handle_line(&chars("lbl -1")), Err(AwawaError::InvalidArgumentError)));
    assert_eq!(handle_line(&chars("jmp 31")).unwrap(), vec![Awatism::Jmp(31)]);
    assert!(matches!(handle_line(&chars("blo 128")), Err(AwawaError::InvalidArgumentError)));
    assert!(matches!(handle_line(&chars("blo")), Err(AwawaError::MissingArgumentError)));
    assert!(matches!(
        handle_line(&chars("blo \"a#z\"")),
        Err(AwawaError::InvalidAwasciiCharError('z'))
    ));
    assert!(matches!(
        handle_line(&chars("blo 'q'")),
        Err(AwawaError::InvalidAwasciiCharError('q'))
    ));
    assert_eq!(handle_line(&chars("blo -128")).unwrap(), vec![Awatism::Blo(-128)]);
    assert_eq!(handle_line(&chars("sbm +3")).unwrap(), vec![Awatism::Sbm(3)]);
    assert_eq!(handle_line(&chars("   # nothing")).unwrap(), vec![]);
}

#[test]
fn mnemonic_case_and_payload() {
    assert_eq!(string_to_awatism(&chars("GR8"), None).unwrap(), vec![Awatism::Gr8]);
    assert_eq!(
        string_to_awatism(&chars("jMp"), Some(&chars("31"))).unwrap(),
        vec![Awatism::Jmp(31)]
    );
    match string_to_awatism(&chars("Hop"), None) {
        Err(AwawaError::UnknownAwatismError(s)) => assert_eq!(s, "Hop"),
        other => panic!("unexpected {:?}", other),
    }
}

#[test]
fn assemble_print_load() {
    let mut out = vec![];
    awassemble("blo \"awa\"\nprn\ntrm\n", &mut out).unwrap();
    let mut cpu = loaded(out.clone());
    assert_eq!(cpu.get_program(), &out);
    for _ in 0..3 {
        cpu.execute_awatism(None).unwrap();
    }
    match cpu.execute_awatism(None) {
        Ok(Output::Text(t)) => assert_eq!(t, vec!['a']),
        other => panic!("unexpected {:?}", other),
    }
}

#[test]
fn instruction_listing() {
    assert_eq!(Awatism::Blo(2).to_text(), "blo 'a'");
    assert_eq!(Awatism::Blo(63).to_text(), "blo '\\n'");
    assert_eq!(Awatism::Blo(-5).to_text(), "blo -5");
    assert_eq!(Awatism::Blo(100).to_text(), "blo 100");
    assert_eq!(Awatism::Sbm(12).to_text(), "sbm 12");
    assert_eq!(Awatism::Jmp(0).to_text(), "jmp 0");
    assert_eq!(Awatism::Add.to_text(), "add");
    assert_eq!(Awatism::Gr8.to_text(), "gr8");
    assert_eq!(Awatism::Trm.discriminant(), 0x1F);
    assert_eq!(Awatism::Jmp(4).discriminant(), 0x11);
}

#[test]
fn abyss_text() {
    let mut cpu = AwaCPU::new("", 0);
    cpu.blo(-7).unwrap();
    cpu.blo(120).unwrap();
    cpu.blo(2).unwrap();
    cpu.srn(2).unwrap();
    cpu.srn(0).unwrap();
    assert_eq!(cpu.get_bubble_abyss().to_text(), "[3] (), ('a', 120), -7");
    assert_eq!(cpu.get_bubble_abyss().get(1).unwrap().to_text(), "('a', 120)");
    assert_eq!(AwaCPU::new("", 0).get_bubble_abyss().to_text(), "[0] ");
}

fn bits_of(tokens: &str) -> Vec<u8> {
    let cs: Vec<char> = tokens.chars().collect();
    let mut bits = vec![];
    let mut i = 0;
    while i < cs.len() {
        match cs[i] {
            'a' | 'A' => {
                bits.push(0);
                i += 3;
            }
            'w' | 'W' => {
                bits.push(1);
                i += 2;
            }
            _ => i += 1,
        }
    }
    bits
}

#[test]
fn print_after_load_keeps_bits() {
    let tokens = "AWA, awa! AwA... aWa awa WA. Awa awa wa wa awa  wa wa awa awa awa";
    let mut cpu = AwaCPU::new(tokens, 0);
    cpu.load_program().unwrap();
    assert_eq!(cpu.get_program(), &vec![Awatism::Prn, Awatism::Sbm(24)]);
    let printed = print_awatisms(cpu.get_program().clone());
    assert_eq!(bits_of(&printed), bits_of(tokens));
}

#[test]
fn failed_step_reports_its_own_error() {
    let mut cpu = loaded(vec![Awatism::Pop, Awatism::Trm]);
    assert!(matches!(cpu.execute_awatism(None), Err(AwawaError::BubbleAbyssEmpty)));
    assert_eq!(cpu.get_ip(), 0);
    let mut cpu = loaded(vec![Awatism::Blo(5), Awatism::R3d]);
    cpu.execute_awatism(None).unwrap();
    assert!(matches!(cpu.execute_awatism(None), Err(AwawaError::ReadLineError)));
    assert_eq!(scalars(&cpu), vec![5]);
    assert_eq!(cpu.get_ip(), 1);
}

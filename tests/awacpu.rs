use awatistic::{AwaCPU, AwawaResult, BubbleItem};

fn abyss_items(cpu: &AwaCPU) -> Vec<&BubbleItem> {
    let abyss = cpu.get_bubble_abyss();
    (0..abyss.len()).map(|i| abyss.get(i).unwrap()).collect()
}

fn assert_bubble_abyss(cpu: AwaCPU, v: Vec<BubbleItem>) {
    let vals = abyss_items(&cpu);
    let expected: Vec<&BubbleItem> = v.iter().collect();
    assert_eq!(vals, expected);
}

fn assert_bubble_abyss_single(cpu: AwaCPU, v: Vec<i32>) {
    let bubble = v.iter().map(|x| BubbleItem::Bubble(*x)).collect::<Vec<_>>();
    assert_bubble_abyss(cpu, bubble);
}

#[test]
fn nop() -> AwawaResult {
    let mut cpu = AwaCPU::new("", 0);
    cpu.nop()?;
    assert_eq!(cpu.get_bubble_abyss().len(), 0);

    return Ok(());
}

#[test]
fn blo() -> AwawaResult {
    let mut cpu = AwaCPU::new("", 0);
    cpu.blo(1)?;
    cpu.blo(2)?;
    cpu.blo(3)?;
    assert_bubble_abyss_single(cpu, vec![3, 2, 1]);
    return Ok(());
}

#[test]
fn sbm() -> AwawaResult {
    let mut cpu = AwaCPU::new("", 0);
    cpu.blo(1)?;
    cpu.blo(2)?;
    cpu.blo(3)?;
    cpu.blo(4)?;
    cpu.blo(5)?;
    cpu.sbm(0)?;
    cpu.sbm(2)?;
    assert_bubble_abyss_single(cpu, vec![3, 2, 4, 1, 5]);
    return Ok(());
}

#[test]
fn srn() -> AwawaResult {
    let mut cpu = AwaCPU::new("", 0);

    cpu.blo(1)?;
    cpu.blo(2)?;
    cpu.blo(3)?;
    cpu.blo(4)?;

    cpu.srn(3)?;

    let v = vec![
        BubbleItem::DoubleBubble(
            vec![
                BubbleItem::Bubble(4),
                BubbleItem::Bubble(3),
                BubbleItem::Bubble(2),
            ]
            .into(),
        ),
        BubbleItem::Bubble(1),
    ];
    assert_bubble_abyss(cpu, v);

    return Ok(());
}

#[test]
fn pop() -> AwawaResult {
    let mut cpu = AwaCPU::new("", 0);

    cpu.blo(1)?;
    cpu.blo(2)?;
    cpu.blo(3)?;

    cpu.srn(3)?;
    cpu.pop()?;
    cpu.pop()?;
    assert_bubble_abyss_single(cpu, vec![2, 1]);

    return Ok(());
}

#[test]
fn dpl() -> AwawaResult {
    let mut cpu = AwaCPU::new("", 0);

    cpu.blo(1)?;
    cpu.blo(2)?;
    cpu.blo(3)?;
    cpu.srn(3)?;

    cpu.dpl()?;
    let v = vec![
        BubbleItem::DoubleBubble(
            vec![
                BubbleItem::Bubble(3),
                BubbleItem::Bubble(2),
                BubbleItem::Bubble(1),
            ]
            .into(),
        ),
        BubbleItem::DoubleBubble(
            vec![
                BubbleItem::Bubble(3),
                BubbleItem::Bubble(2),
                BubbleItem::Bubble(1),
            ]
            .into(),
        ),
    ];
    assert_bubble_abyss(cpu, v);

    let mut cpu = AwaCPU::new("", 0);

    cpu.blo(1)?;
    cpu.blo(2)?;
    cpu.blo(3)?;
    cpu.dpl()?;
    assert_bubble_abyss_single(cpu, vec![3, 3, 2, 1]);
    return Ok(());
}

#[test]
fn add() -> AwawaResult {
    // Bubble + Bubble
    let mut cpu = AwaCPU::new("", 0);

    cpu.blo(10)?;
    cpu.blo(1)?;
    cpu.add()?;
    assert_bubble_abyss_single(cpu, vec![1 + 10]);

    // Bubble + DoubleBubble
    let mut cpu = AwaCPU::new("", 0);

    cpu.blo(1)?;
    cpu.blo(2)?;
    cpu.blo(3)?;
    cpu.srn(3)?;
    cpu.blo(10)?;
    cpu.add()?;
    let v = vec![BubbleItem::DoubleBubble(
        vec![
            BubbleItem::Bubble(10 + 3),
            BubbleItem::Bubble(10 + 2),
            BubbleItem::Bubble(10 + 1),
        ]
        .into(),
    )];
    assert_bubble_abyss(cpu, v);

    // DoubleBubble + Bubble
    let mut cpu = AwaCPU::new("", 0);

    cpu.blo(10)?;
    cpu.blo(1)?;
    cpu.blo(2)?;
    cpu.blo(3)?;
    cpu.srn(3)?;
    cpu.add()?;
    let v = vec![BubbleItem::DoubleBubble(
        vec![
            BubbleItem::Bubble(3 + 10),
            BubbleItem::Bubble(2 + 10),
            BubbleItem::Bubble(1 + 10),
        ]
        .into(),
    )];
    assert_bubble_abyss(cpu, v);

    // DoubleBubble + DoubleBubble
    let mut cpu = AwaCPU::new("", 0);

    // ( (10, 11), (12, 13) ) + (1, 2, 3)
    cpu.blo(10)?;
    cpu.blo(11)?;
    cpu.srn(2)?;
    cpu.blo(12)?;
    cpu.blo(13)?;
    cpu.srn(2)?;
    cpu.srn(2)?;

    cpu.blo(1)?;
    cpu.blo(2)?;
    cpu.blo(3)?;
    cpu.srn(3)?;

    cpu.add()?;
    let v = vec![BubbleItem::DoubleBubble(
        vec![
            BubbleItem::DoubleBubble(
                vec![BubbleItem::Bubble(3 + 13), BubbleItem::Bubble(3 + 12)].into(),
            ),
            BubbleItem::DoubleBubble(
                vec![BubbleItem::Bubble(2 + 11), BubbleItem::Bubble(2 + 10)].into(),
            ),
        ]
        .into(),
    )];
    assert_bubble_abyss(cpu, v);

    return Ok(());
}

#[test]
fn sub() -> AwawaResult {
    // Bubble - Bubble
    let mut cpu = AwaCPU::new("", 0);

    cpu.blo(10)?;
    cpu.blo(1)?;
    cpu.sub()?;
    assert_bubble_abyss_single(cpu, vec![1 - 10]);

    // Bubble - DoubleBubble
    let mut cpu = AwaCPU::new("", 0);

    cpu.blo(1)?;
    cpu.blo(2)?;
    cpu.blo(3)?;
    cpu.srn(3)?;
    cpu.blo(10)?;
    cpu.sub()?;
    let v = vec![BubbleItem::DoubleBubble(
        vec![
            BubbleItem::Bubble(10 - 3),
            BubbleItem::Bubble(10 - 2),
            BubbleItem::Bubble(10 - 1),
        ]
        .into(),
    )];
    assert_bubble_abyss(cpu, v);

    // DoubleBubble - Bubble
    let mut cpu = AwaCPU::new("", 0);

    cpu.blo(10)?;
    cpu.blo(1)?;
    cpu.blo(2)?;
    cpu.blo(3)?;
    cpu.srn(3)?;
    cpu.sub()?;
    let v = vec![BubbleItem::DoubleBubble(
        vec![
            BubbleItem::Bubble(3 - 10),
            BubbleItem::Bubble(2 - 10),
            BubbleItem::Bubble(1 - 10),
        ]
        .into(),
    )];
    assert_bubble_abyss(cpu, v);

    // DoubleBubble - DoubleBubble
    let mut cpu = AwaCPU::new("", 0);

    // ( (10, 11), (12, 13) ) - (1, 2, 3)
    cpu.blo(10)?;
    cpu.blo(11)?;
    cpu.srn(2)?;
    cpu.blo(12)?;
    cpu.blo(13)?;
    cpu.srn(2)?;
    cpu.srn(2)?;

    cpu.blo(1)?;
    cpu.blo(2)?;
    cpu.blo(3)?;
    cpu.srn(3)?;

    cpu.sub()?;
    let v = vec![BubbleItem::DoubleBubble(
        vec![
            BubbleItem::DoubleBubble(
                vec![BubbleItem::Bubble(3 - 13), BubbleItem::Bubble(3 - 12)].into(),
            ),
            BubbleItem::DoubleBubble(
                vec![BubbleItem::Bubble(2 - 11), BubbleItem::Bubble(2 - 10)].into(),
            ),
        ]
        .into(),
    )];
    assert_bubble_abyss(cpu, v);

    return Ok(());
}

#[test]
fn mul() -> AwawaResult {
    // Bubble * Bubble
    let mut cpu = AwaCPU::new("", 0);

    cpu.blo(10)?;
    cpu.blo(2)?;
    cpu.mul()?;
    assert_bubble_abyss_single(cpu, vec![2 * 10]);

    // Bubble * DoubleBubble
    let mut cpu = AwaCPU::new("", 0);

    cpu.blo(1)?;
    cpu.blo(2)?;
    cpu.blo(3)?;
    cpu.srn(3)?;
    cpu.blo(10)?;
    cpu.mul()?;
    let v = vec![BubbleItem::DoubleBubble(
        vec![
            BubbleItem::Bubble(10 * 3),
            BubbleItem::Bubble(10 * 2),
            BubbleItem::Bubble(10 * 1),
        ]
        .into(),
    )];
    assert_bubble_abyss(cpu, v);

    // DoubleBubble * Bubble
    let mut cpu = AwaCPU::new("", 0);

    cpu.blo(10)?;
    cpu.blo(1)?;
    cpu.blo(2)?;
    cpu.blo(3)?;
    cpu.srn(3)?;
    cpu.mul()?;
    let v = vec![BubbleItem::DoubleBubble(
        vec![
            BubbleItem::Bubble(3 * 10),
            BubbleItem::Bubble(2 * 10),
            BubbleItem::Bubble(1 * 10),
        ]
        .into(),
    )];
    assert_bubble_abyss(cpu, v);

    // DoubleBubble * DoubleBubble
    let mut cpu = AwaCPU::new("", 0);

    // ( (10, 11), (12, 13) ) * (1, 2, 3)
    cpu.blo(10)?;
    cpu.blo(11)?;
    cpu.srn(2)?;
    cpu.blo(12)?;
    cpu.blo(13)?;
    cpu.srn(2)?;
    cpu.srn(2)?;

    cpu.blo(1)?;
    cpu.blo(2)?;
    cpu.blo(3)?;
    cpu.srn(3)?;

    cpu.mul()?;
    let v = vec![BubbleItem::DoubleBubble(
        vec![
            BubbleItem::DoubleBubble(
                vec![BubbleItem::Bubble(3 * 13), BubbleItem::Bubble(3 * 12)].into(),
            ),
            BubbleItem::DoubleBubble(
                vec![BubbleItem::Bubble(2 * 11), BubbleItem::Bubble(2 * 10)].into(),
            ),
        ]
        .into(),
    )];
    assert_bubble_abyss(cpu, v);

    return Ok(());
}

#[test]
fn mrg() -> AwawaResult {
    // Bubble mrg Bubble
    let mut cpu = AwaCPU::new("", 0);

    cpu.blo(10)?;
    cpu.blo(2)?;
    cpu.mrg()?;
    assert_bubble_abyss_single(cpu, vec![2 + 10]);

    // Bubble mrg DoubleBubble
    let mut cpu = AwaCPU::new("", 0);

    cpu.blo(1)?;
    cpu.blo(2)?;
    cpu.blo(3)?;
    cpu.srn(3)?;
    cpu.blo(10)?;
    cpu.mrg()?;
    let v = vec![BubbleItem::DoubleBubble(
        vec![
            BubbleItem::Bubble(10),
            BubbleItem::Bubble(3),
            BubbleItem::Bubble(2),
            BubbleItem::Bubble(1),
        ]
        .into(),
    )];
    assert_bubble_abyss(cpu, v);

    // DoubleBubble mrg Bubble
    let mut cpu = AwaCPU::new("", 0);

    cpu.blo(10)?;
    cpu.blo(1)?;
    cpu.blo(2)?;
    cpu.blo(3)?;
    cpu.srn(3)?;
    cpu.mrg()?;
    let v = vec![BubbleItem::DoubleBubble(
        vec![
            BubbleItem::Bubble(3),
            BubbleItem::Bubble(2),
            BubbleItem::Bubble(1),
            BubbleItem::Bubble(10),
        ]
        .into(),
    )];
    assert_bubble_abyss(cpu, v);

    // DoubleBubble mrg DoubleBubble
    let mut cpu = AwaCPU::new("", 0);

    // ( (10, 11), (12, 13) ) mrg (1, 2, 3)
    cpu.blo(10)?;
    cpu.blo(11)?;
    cpu.srn(2)?;
    cpu.blo(12)?;
    cpu.blo(13)?;
    cpu.srn(2)?;
    cpu.srn(2)?;

    cpu.blo(1)?;
    cpu.blo(2)?;
    cpu.blo(3)?;
    cpu.srn(3)?;

    cpu.mrg()?;
    let v = vec![BubbleItem::DoubleBubble(
        vec![
            BubbleItem::Bubble(3),
            BubbleItem::Bubble(2),
            BubbleItem::Bubble(1),
            BubbleItem::DoubleBubble(
                vec![BubbleItem::Bubble(13), BubbleItem::Bubble(12)].into(),
            ),
            BubbleItem::DoubleBubble(
                vec![BubbleItem::Bubble(11), BubbleItem::Bubble(10)].into(),
            ),
        ]
        .into(),
    )];
    assert_bubble_abyss(cpu, v);

    return Ok(());
}

#[test]
fn div() -> AwawaResult {
    let mut cpu = AwaCPU::new("", 0);

    cpu.blo(2)?;

    cpu.blo(11)?;
    cpu.blo(20)?;
    cpu.srn(2)?;

    cpu.div()?;
    let v = vec![BubbleItem::DoubleBubble(
        vec![
            BubbleItem::DoubleBubble(
                vec![BubbleItem::Bubble(10), BubbleItem::Bubble(5)].into(),
            ),
            BubbleItem::DoubleBubble(vec![BubbleItem::Bubble(0), BubbleItem::Bubble(1)].into()),
        ]
        .into(),
    )];
    assert_bubble_abyss(cpu, v);
    return Ok(());
}

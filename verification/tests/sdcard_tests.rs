use lemon_core::drivers::sdcard::{
    card_info, command_frame, decode_cid, decode_csd, init_start, init_step, register_read_ok, Cmd, InitError,
    SdAction, SdInitState, INIT_TRIES,
};

/// A card that answers each command from a script: (command, answer, frame)
struct FakeCard {
    script: Vec<(Cmd, u8, [u8; 4])>,
    sent: Vec<Cmd>,
}

impl FakeCard {
    fn answer(&mut self, cmd: Cmd) -> (u8, [u8; 4]) {
        self.sent.push(cmd);
        let (expected, r, f) = self.script.remove(0);
        assert_eq!(expected, cmd);
        (r, f)
    }
}

/// Run the initialisation against `card` until it asks for the card
/// information or fails
fn run(card: &mut FakeCard) -> Result<(), InitError> {
    let (mut state, mut action) = init_start();
    loop {
        match action {
            SdAction::Send { cmd, .. } => {
                let (r, f) = card.answer(cmd);
                let next = init_step(state, r, f);
                state = next.0;
                action = next.1;
            },
            SdAction::ReadCardInfo => return Ok(()),
            SdAction::Fail(e) => return Err(e),
        }
    }
}

const NO_FRAME: [u8; 4] = [0; 4];

#[test]
fn command_frames() {
    assert_eq!(command_frame(Cmd::CMD0, 0, 0x95), vec![0x40, 0, 0, 0, 0, 0x95]);
    assert_eq!(command_frame(Cmd::CMD8, 0x01AA, 0x87), vec![0x48, 0, 0, 0x01, 0xAA, 0x87]);
    assert_eq!(command_frame(Cmd::CMD17, 0x1234_5678, 0), vec![0x51, 0x12, 0x34, 0x56, 0x78, 0]);
    assert_eq!(Cmd::ACMD41.number(), 41);
}

#[test]
fn a_card_that_gets_ready() {
    let mut card = FakeCard {
        script: vec![
            (Cmd::CMD0, 1, NO_FRAME),
            (Cmd::CMD8, 1, [0, 0, 1, 0xAA]),
            (Cmd::CMD55, 1, NO_FRAME),
            (Cmd::ACMD41, 1, NO_FRAME),
            (Cmd::CMD55, 1, NO_FRAME),
            (Cmd::ACMD41, 0, NO_FRAME),
            (Cmd::CMD58, 1, NO_FRAME),
            (Cmd::CMD58, 0, [0xC0, 0xFF, 0x80, 0]),
        ],
        sent: Vec::new(),
    };
    assert!(run(&mut card).is_ok());
    assert!(card.script.is_empty());
}

#[test]
fn a_card_that_fails_the_reset() {
    let mut card = FakeCard { script: vec![(Cmd::CMD0, 0x7F, NO_FRAME)], sent: Vec::new() };
    assert!(matches!(run(&mut card), Err(InitError::CMDFailed(Cmd::CMD0, 0x7F))));
    let mut card = FakeCard { script: vec![(Cmd::CMD0, 1, NO_FRAME), (Cmd::CMD8, 5, NO_FRAME)], sent: Vec::new() };
    assert!(matches!(run(&mut card), Err(InitError::CMDFailed(Cmd::CMD8, 5))));
}

#[test]
fn a_card_that_never_gets_ready() {
    let mut script = vec![(Cmd::CMD0, 1, NO_FRAME), (Cmd::CMD8, 1, NO_FRAME)];
    for _ in 0..INIT_TRIES {
        script.push((Cmd::CMD55, 1, NO_FRAME));
        script.push((Cmd::ACMD41, 1, NO_FRAME));
    }
    let mut card = FakeCard { script, sent: Vec::new() };
    // the error carries the answer of the voltage check
    assert!(matches!(run(&mut card), Err(InitError::CMDFailed(Cmd::ACMD41, 1))));
    assert_eq!(card.sent.len(), 2 + 2 * 255);
}

#[test]
fn a_card_that_rejects_the_leading_command() {
    let script = vec![(Cmd::CMD0, 1, NO_FRAME), (Cmd::CMD8, 1, NO_FRAME), (Cmd::CMD55, 4, NO_FRAME)];
    let mut card = FakeCard { script, sent: Vec::new() };
    assert!(matches!(run(&mut card), Err(InitError::CMDFailed(Cmd::CMD55, 4))));
}

#[test]
fn ocr_without_the_capacity_bit() {
    let script = vec![
        (Cmd::CMD0, 1, NO_FRAME),
        (Cmd::CMD8, 1, NO_FRAME),
        (Cmd::CMD55, 1, NO_FRAME),
        (Cmd::ACMD41, 0, NO_FRAME),
        (Cmd::CMD58, 0, [0x80, 1, 2, 3]),
    ];
    let mut card = FakeCard { script, sent: Vec::new() };
    assert!(matches!(run(&mut card), Err(InitError::CardCapacityStatusNotSet([0x80, 1, 2, 3]))));
    // an OCR that never comes
    let mut script = vec![
        (Cmd::CMD0, 1, NO_FRAME),
        (Cmd::CMD8, 1, NO_FRAME),
        (Cmd::CMD55, 1, NO_FRAME),
        (Cmd::ACMD41, 0, NO_FRAME),
    ];
    for _ in 0..255 {
        script.push((Cmd::CMD58, 0xFF, NO_FRAME));
    }
    let mut card = FakeCard { script, sent: Vec::new() };
    assert!(matches!(run(&mut card), Err(InitError::CMDFailed(Cmd::CMD58, 1))));
}

#[test]
fn init_steps_from_each_state() {
    assert!(matches!(init_step(SdInitState::OpCondition { tries_left: 1 }, 1, NO_FRAME).1, SdAction::Fail(_)));
    assert_eq!(init_step(SdInitState::OpCondition { tries_left: 2 }, 1, NO_FRAME).0, SdInitState::AppCommand { tries_left: 1 });
    assert_eq!(init_step(SdInitState::ReadOcr { tries_left: 3 }, 1, NO_FRAME).0, SdInitState::ReadOcr { tries_left: 2 });
    assert!(matches!(init_step(SdInitState::ReadOcr { tries_left: 3 }, 0, [0x40, 0, 0, 0]).1, SdAction::ReadCardInfo));
}

#[test]
fn card_registers_and_capacity() {
    let mut csd = [0u8; 18];
    csd[0] = 0x40; // CSD version 2
    csd[5] = 0x59; // command classes low nibble 5, read block length 9
    csd[7] = 0x00;
    csd[8] = 0x1D;
    csd[9] = 0x9F; // device size 0x1D9F
    csd[15] = 0x0B;
    let c = decode_csd(csd);
    assert_eq!(c.csd_struct, 1);
    assert_eq!(c.rd_block_len, 9);
    assert_eq!(c.card_comd_classes, 0x005);
    assert_eq!(c.device_size, 0x1D9F);
    assert_eq!(c.csd_crc, 5);
    assert_eq!(c.reserved4, 1);
    let mut cid = [0u8; 18];
    cid[0] = 3;
    cid[1] = b'S';
    cid[2] = b'D';
    cid[3..7].copy_from_slice(b"SU08");
    cid[13] = 0x01;
    cid[14] = 0x2A;
    let d = decode_cid(cid);
    assert_eq!(d.manufacturer_id, 3);
    assert_eq!(d.oem_appli_id, 0x5344);
    assert_eq!(d.prod_name1, 0x5355_3038);
    assert_eq!(d.manufact_date, 0x12A);
    let info = card_info(Some(csd), Some(cid)).unwrap();
    assert_eq!(info.card_block_size, 512);
    assert_eq!(info.card_capacity, (0x1D9F + 1) * 1024 * 512);
    assert!(matches!(card_info(None, Some(cid)), Err(InitError::CannotGetCardInfo)));
    assert!(matches!(card_info(Some(csd), None), Err(InitError::CannotGetCardInfo)));
    assert!(register_read_ok(0, 0xFE));
    assert!(!register_read_ok(1, 0xFE));
    assert!(!register_read_ok(0, 0xFF));
}

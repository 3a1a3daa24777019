use reth_kit::opcodes::{push_decimal, report_line, Command, OpcodeCounts};

#[test]
fn command_keeps_its_directory() {
    let command = Command::new("/var/lib/reth/db");
    assert_eq!(command.db_dir(), "/var/lib/reth/db");
}

#[test]
fn push_data_is_not_counted() {
    let mut counts = OpcodeCounts::new();
    // PUSH1 0x01, PUSH2 0x60 0x01, ADD, 0x0c (no opcode), STOP
    counts.count_opcodes(&vec![0x60, 0x01, 0x61, 0x60, 0x01, 0x01, 0x0c, 0x00]);
    assert_eq!(counts.get(0x60), 1);
    assert_eq!(counts.get(0x61), 1);
    assert_eq!(counts.get(0x01), 1);
    assert_eq!(counts.get(0x0c), 0);
    assert_eq!(counts.get(0xfe), 1);
    assert_eq!(counts.get(0x00), 1);
    assert_eq!(counts.sum(), 5);
    counts.count_opcodes(&vec![0x7f, 0x01, 0x02]);
    assert_eq!(counts.get(0x7f), 1);
    assert_eq!(counts.get(0x01), 1);
    assert_eq!(counts.sum(), 6);
    counts.count_opcodes(&Vec::new());
    assert_eq!(counts.sum(), 6);
}

#[test]
fn the_report_names_the_opcodes() {
    let mut counts = OpcodeCounts::new();
    counts.count_opcodes(&vec![0x01, 0x01, 0x0c, 0x60, 0xaa, 0x00, 0x01]);
    assert_eq!(
        counts.report(),
        vec![
            String::from("STOP: 1"),
            String::from("ADD: 3"),
            String::from("PUSH1: 1"),
            String::from("INVALID: 1"),
        ]
    );
    assert_eq!(OpcodeCounts::new().report(), Vec::<String>::new());
}

#[test]
fn a_line_without_a_name_shows_the_number() {
    assert_eq!(report_line(None, 12, 40), "12: 40");
    assert_eq!(report_line(Some(String::from("ADD")), 1, 0), "ADD: 0");
    assert_eq!(report_line(None, 255, usize::MAX), format!("255: {}", usize::MAX));
}

#[test]
fn decimal_digits() {
    for n in [0usize, 7, 10, 99, 100, 12345, 9007199254740993, usize::MAX] {
        let mut out = String::from("n=");
        push_decimal(&mut out, n);
        assert_eq!(out, format!("n={n}"));
    }
}

fn from_hex(text: &str) -> Vec<u8> {
    let digits: Vec<u8> = text
        .bytes()
        .map(|c| match c {
            b'0'..=b'9' => c - b'0',
            b'a'..=b'f' => c - b'a' + 10,
            b'A'..=b'F' => c - b'A' + 10,
            _ => panic!("not a hex digit"),
        })
        .collect();
    digits.chunks(2).map(|pair| pair[0] * 16 + pair[1]).collect()
}

fn get_test_bytecode() -> String {
    let mut code = String::new();
    // STOP to MULMOD, EXP, SIGNEXTEND, LT to SAR, KECCAK256, ADDRESS to
    // BLOBBASEFEE, POP to PUSH0
    for op in (0x00u8..=0x0b).chain(0x10..=0x1d).chain(0x20..=0x20).chain(0x30..=0x4a).chain(0x50..=0x5f) {
        code.push_str(&format!("{op:02X}"));
    }
    // PUSH1 to PUSH32, each with its data
    for n in 1..=32usize {
        code.push_str(&format!("{:02x}", 0x5f + n));
        code.push_str(&"aa".repeat(n));
    }
    // DUP1 to SWAP16, LOG0 to LOG4, CREATE to CREATE2, STATICCALL, REVERT,
    // INVALID, SELFDESTRUCT
    for op in (0x80u8..=0x9f).chain(0xa0..=0xa4).chain(0xf0..=0xf5).chain([0xfa, 0xfd, 0xfe, 0xff]) {
        code.push_str(&format!("{op:02X}"));
    }
    code
}

#[test]
fn test_filter_bytecode_bytes() {
    let test_bytecode_bytes = from_hex(&get_test_bytecode());
    // assuming push data inside test bytes is "0xaa"
    let manually_filtered_bytes: Vec<u8> =
        test_bytecode_bytes.iter().copied().filter(|op| *op != 0xaa).collect();
    assert_eq!(
        manually_filtered_bytes,
        reth_kit::opcodes::sequences::filter_bytecode_bytes(&test_bytecode_bytes)
    );
    assert!(manually_filtered_bytes.len() < test_bytecode_bytes.len());
}

#[test]
fn filter_keeps_the_opcode_of_a_push_and_a_cut_off_push() {
    let filter = reth_kit::opcodes::sequences::filter_bytecode_bytes;
    assert_eq!(filter(&vec![0x60, 0x60, 0x01]), vec![0x60, 0x01]);
    assert_eq!(filter(&vec![0x61, 0x01]), vec![0x61]);
    assert_eq!(filter(&vec![0x7f]), vec![0x7f]);
    assert_eq!(filter(&vec![0x5f, 0x01, 0x80]), vec![0x5f, 0x01, 0x80]);
    assert_eq!(filter(&Vec::new()), Vec::<u8>::new());
}

#[test]
fn the_queue_keeps_the_last_four() {
    let mut queue = reth_kit::opcodes::sequences::FixedQueue::new(4);
    assert_eq!(queue.as_tuple(), None);
    queue.insert(1);
    assert_eq!(queue.as_tuple(), None);
    queue.insert(2);
    assert_eq!(queue.as_tuple(), Some((1, 2)));
    assert_eq!(queue.as_triplet(), None);
    queue.insert(3);
    assert_eq!(queue.as_triplet(), Some((1, 2, 3)));
    assert_eq!(queue.as_quadruplet(), None);
    queue.insert(4);
    assert_eq!(queue.as_quadruplet(), Some((1, 2, 3, 4)));
    queue.insert(5);
    assert_eq!(queue.len(), 4);
    assert_eq!(queue.as_quadruplet(), Some((2, 3, 4, 5)));
    assert_eq!(queue.as_triplet(), Some((3, 4, 5)));
    assert_eq!(queue.as_tuple(), Some((4, 5)));
    assert_eq!(queue.last(3), vec![3, 4, 5]);
    assert_eq!(queue.get(0), 2);
    let mut none = reth_kit::opcodes::sequences::FixedQueue::new(0);
    none.insert(7);
    none.insert(8);
    assert_eq!(none.len(), 1);
    assert_eq!(none.get(0), 8);
}

#[test]
fn runs_of_opcodes_are_counted() {
    // STOP ADD MUL LT MUL ADD MUL EXP
    let code = vec![0x00, 0x01, 0x02, 0x10, 0x02, 0x01, 0x02, 0x0a];
    let mut counter = reth_kit::opcodes::sequences::OpCodeCounter::new();
    counter.count_sequences(&code[..3].to_vec());
    counter.count_sequences(&code[3..].to_vec());
    assert_eq!(counter.len(), 8);
    assert_eq!(counter.get(&vec![0x02]), 3);
    assert_eq!(counter.get(&vec![0x01]), 2);
    assert_eq!(counter.get(&vec![0x01, 0x02]), 2);
    assert_eq!(counter.get(&vec![0x02, 0x01]), 1);
    assert_eq!(counter.get(&vec![0x02, 0x10, 0x02]), 1);
    assert_eq!(counter.get(&vec![0x01, 0x02, 0x10]), 1);
    assert_eq!(counter.get(&vec![0x02, 0x01, 0x02, 0x0a]), 1);
    assert_eq!(counter.get(&vec![0x00, 0x01, 0x02, 0x10, 0x02]), 0);
    assert_eq!(counter.get(&vec![0x0a, 0x00]), 0);
    assert_eq!(counter.get(&Vec::new()), 0);
    assert_eq!(
        counter.runs_of_length(2),
        vec![vec![0, 1], vec![1, 2], vec![2, 0x10], vec![0x10, 2], vec![2, 1], vec![2, 0x0a]]
    );
    assert_eq!(counter.runs_of_length(1), vec![vec![0], vec![1], vec![2], vec![0x10], vec![0x0a]]);
    assert_eq!(counter.runs_of_length(4).len(), 5);
    assert_eq!(counter.runs_of_length(5), Vec::<Vec<u8>>::new());
}

#[test]
fn a_run_is_shown_by_its_names() {
    let run_line = reth_kit::opcodes::sequences::run_line;
    assert_eq!(run_line(&vec![0x01, 0x02], 2), Some(String::from("ADD MUL: 2")));
    assert_eq!(run_line(&vec![0x00, 0x01, 0x02, 0x10], 1), Some(String::from("STOP ADD MUL LT: 1")));
    assert_eq!(run_line(&vec![0x01], 7), Some(String::from("ADD: 7")));
    assert_eq!(run_line(&vec![0x0c], 7), Some(String::from("12: 7")));
    assert_eq!(run_line(&vec![0x01, 0x0c], 7), None);
    assert_eq!(run_line(&vec![0x0c, 0x01, 0x02], 7), None);
}

#[test]
fn only_defined_opcodes_have_a_name() {
    assert_eq!(reth_kit::opcodes::mnemonic(0x01), Some(String::from("ADD")));
    assert_eq!(reth_kit::opcodes::mnemonic(0x60), Some(String::from("PUSH1")));
    assert_eq!(reth_kit::opcodes::mnemonic(0xfe), Some(String::from("INVALID")));
    assert_eq!(reth_kit::opcodes::mnemonic(0x0c), None);
}

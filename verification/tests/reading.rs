use evfs::blocks;
use evfs::blocks::Block;
use evfs::blocks::ReadPlan;
use evfs::progress::Report;
use evfs::InternalError;
use evfs::Progress;

fn block(offset: usize, len: usize) -> Block {
    Block { offset, len }
}

fn blocks_in(plan: ReadPlan) -> (usize, Vec<Block>) {
    match plan {
        ReadPlan::Whole => panic!("not in blocks"),
        ReadPlan::Blocks { steps, blocks } => (steps, blocks),
    }
}

/// The blocks lie side by side, and together are the file.
fn assert_make_up(blocks: &[Block], total: usize) {
    let mut end = 0;
    for b in blocks {
        assert_eq!(b.offset, end);
        end += b.len;
    }
    assert_eq!(end, total);
}

#[test]
fn small_files_are_read_at_once() {
    assert!(matches!(blocks::plan_read(0, blocks::SMALL_ENTRY), ReadPlan::Whole));
    assert!(matches!(blocks::plan_read(10239, blocks::SMALL_ENTRY), ReadPlan::Whole));
    assert!(matches!(blocks::plan_read(10240, blocks::SMALL_FILE), ReadPlan::Whole));
    assert!(matches!(blocks::plan_read(5 * 1024 * 1024 - 1, blocks::SMALL_FILE), ReadPlan::Whole));
}

#[test]
fn other_files_are_read_in_tenths() {
    let (steps, read) = blocks_in(blocks::plan_read(10249, blocks::SMALL_ENTRY));
    assert_eq!(steps, 10);
    assert_eq!(read.len(), 11);
    assert_eq!(read[0], block(0, 1024));
    assert_eq!(read[9], block(9216, 1024));
    assert_eq!(read[10], block(10240, 9));
    assert_make_up(&read, 10249);
    let (_, even) = blocks_in(blocks::plan_read(5242880, blocks::SMALL_FILE));
    assert_eq!(even[10], block(5242880, 0));
    assert_make_up(&even, 5242880);
}

#[test]
fn servers_are_asked_for_64k_at_once() {
    let (steps, none) = blocks_in(blocks::plan_fetch(0));
    assert_eq!(steps, 0);
    assert_eq!(none, vec![block(0, 0)]);
    let (steps, two) = blocks_in(blocks::plan_fetch(65537));
    assert_eq!(steps, 1);
    assert_eq!(two, vec![block(0, 65536), block(65536, 1)]);
    let (steps, many) = blocks_in(blocks::plan_fetch(5046034));
    assert_eq!(steps, 76);
    assert_eq!(many.len(), 77);
    assert_eq!(many[76], block(4980736, 65298));
    assert_make_up(&many, 5046034);
}

#[test]
fn blocks_give_back_the_file() {
    let file: Vec<u8> = (0..1000_u32).map(|i| (i % 251) as u8).collect();
    let read = blocks::blocks_of(1000, 90, 12);
    let mut data: Vec<u8> = Vec::new();
    for b in &read {
        data.extend_from_slice(&file[b.offset..b.offset + b.len]);
    }
    assert_eq!(data, file);
}

struct Told {
    parts: Vec<usize>,
}

impl Report for Told {
    fn report(&mut self, parts: usize) -> bool {
        self.parts.push(parts);
        self.parts.len() < 3
    }
}

#[test]
fn steps_are_told_as_they_are_taken() {
    let mut progress = Progress::telling(Told { parts: vec![] });
    assert!(progress.to.parts.is_empty());
    assert!(progress.step().is_ok());
    assert_eq!(progress.to.parts, vec![10]);
    progress.set_step(4);
    assert_eq!(progress.to.parts, vec![10]);
    assert!(progress.step().is_ok());
    assert_eq!(progress.to.parts, vec![10, 4]);
    assert!(matches!(progress.step(), Err(InternalError::SendError)));
}

#[test]
fn steps_of_progress() {
    let mut progress = Progress::new();
    progress.step().unwrap();
    progress.set_step(3);
    progress.step().unwrap();
    progress.step().unwrap();
    progress.set_step(0);
    progress.step().unwrap();
    assert_eq!(progress.to, vec![10, 3, 3, 1]);
    assert_eq!(progress.step, 1);
}

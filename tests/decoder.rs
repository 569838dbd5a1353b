use md_tools::conversion::{parse_wrapper, FormatStandard, WriteProgress};
use md_tools::decoder::{make_parser, ParseError, TypeAtom, VectorBits};

const POSITION: u32 = 1;
const VELOCITY: u32 = 2;

struct Header {
    block_atoms: u64,
    ranks: u64,
    mask: u32,
    item_bytes: u64,
    frames: u32,
}

fn header_bytes(h: &Header) -> Vec<u8> {
    let mut b = Vec::new();
    b.extend_from_slice(&80u64.to_le_bytes()); // self_size
    b.extend_from_slice(&0u64.to_le_bytes()); // frame_meta_size
    b.extend_from_slice(&h.block_atoms.to_le_bytes());
    b.extend_from_slice(&0u64.to_le_bytes()); // atoms_num
    b.extend_from_slice(&h.item_bytes.to_le_bytes());
    b.extend_from_slice(&h.ranks.to_le_bytes());
    b.extend_from_slice(&h.mask.to_le_bytes());
    b.extend_from_slice(&2u32.to_le_bytes()); // format_version
    b.extend_from_slice(&80u64.to_le_bytes()); // global_header_size
    b.extend_from_slice(&0u64.to_le_bytes()); // local_size
    b.extend_from_slice(&h.frames.to_le_bytes());
    b.extend_from_slice(&[0u8; 4]);
    assert_eq!(b.len(), 80);
    b
}

fn slot(id: u64, tp: i32, pos: (f64, f64, f64)) -> Vec<u8> {
    let mut b = Vec::new();
    b.extend_from_slice(&id.to_le_bytes());
    b.extend_from_slice(&tp.to_le_bytes());
    b.extend_from_slice(&pos.0.to_le_bytes());
    b.extend_from_slice(&pos.1.to_le_bytes());
    b.extend_from_slice(&pos.2.to_le_bytes());
    b
}

fn atom_slot(id: u64) -> Vec<u8> {
    slot(id, 0, (id as f64, 0.5, -1.25))
}

fn sentinel() -> Vec<u8> {
    slot(0, -1, (0.0, 0.0, 0.0))
}

fn padding() -> Vec<u8> {
    vec![0xee; 36]
}

#[derive(Default)]
struct Collector {
    started: u32,
    frames: Vec<u32>,
    ended_frames: u32,
    atoms: Vec<TypeAtom>,
    done: u32,
    calls: Vec<String>,
}

impl WriteProgress for Collector {
    fn on_atom_read(&mut self, atom: &TypeAtom) -> i32 {
        self.atoms.push(*atom);
        self.calls.push(format!("atom {}", atom.id));
        0
    }
    fn before_frame(&mut self, frame: u32, _output: &str) {
        self.frames.push(frame);
        self.calls.push(format!("before {}", frame));
    }
    fn after_frame(&mut self) {
        self.ended_frames += 1;
        self.calls.push(String::from("after"));
    }
    fn on_start(&mut self, _output: &str) {
        self.started += 1;
        self.calls.push(String::from("start"));
    }
    fn done(&mut self) {
        self.done += 1;
        self.calls.push(String::from("done"));
    }
}

fn ids(c: &Collector) -> Vec<u64> {
    c.atoms.iter().map(|a| a.id).collect()
}

#[test]
fn two_ranks_yield_five_atoms_in_rank_order() {
    let h = Header { block_atoms: 4, ranks: 2, mask: POSITION, item_bytes: 36, frames: 1 };
    let mut data = header_bytes(&h);
    for s in [atom_slot(1), atom_slot(2), atom_slot(3), sentinel()] {
        data.extend(s);
    }
    for s in [atom_slot(11), atom_slot(12), sentinel(), padding()] {
        data.extend(s);
    }
    let mut c = Collector::default();
    assert_eq!(parse_wrapper(FormatStandard::Next, data, "out", &mut c), Ok(1));
    assert_eq!(ids(&c), vec![1, 2, 3, 11, 12]);
    assert_eq!((c.started, c.frames.clone(), c.ended_frames, c.done), (1, vec![0], 1, 1));
    let a = c.atoms[0];
    assert_eq!(a.tp, 0);
    assert_eq!(a.atom_location, VectorBits { x: 1.0f64.to_bits(), y: 0.5f64.to_bits(), z: (-1.25f64).to_bits() });
    assert_eq!(a.atom_velocity, VectorBits { x: 0, y: 0, z: 0 });
}

#[test]
fn next_atom_reports_frame_end_after_last_rank() {
    let h = Header { block_atoms: 4, ranks: 2, mask: POSITION, item_bytes: 36, frames: 1 };
    let mut data = header_bytes(&h);
    for s in [atom_slot(1), atom_slot(2), atom_slot(3), sentinel(), atom_slot(11), atom_slot(12), sentinel(), padding()] {
        data.extend(s);
    }
    let mut p = make_parser(data).unwrap();
    assert_eq!(p.frame_count(), 1);
    assert!(p.advance_frame());
    let mut seen = Vec::new();
    loop {
        match p.next_atom() {
            Ok(true) => {
                let a = p.current_atom();
                if a.tp != -1 {
                    seen.push(a.id);
                }
            }
            Ok(false) => break,
            Err(e) => panic!("{:?}", e),
        }
    }
    assert_eq!(seen, vec![1, 2, 3, 11, 12]);
    assert!(!p.advance_frame());
}

#[test]
fn full_block_continues_in_the_rank_next_block() {
    // blocks of two slots: rank 0 | rank 1 | rank 0 | rank 1
    let h = Header { block_atoms: 2, ranks: 2, mask: POSITION, item_bytes: 36, frames: 1 };
    let mut data = header_bytes(&h);
    for s in [atom_slot(1), atom_slot(2), atom_slot(11), sentinel(), atom_slot(3), sentinel(), padding(), padding()] {
        data.extend(s);
    }
    let mut c = Collector::default();
    assert_eq!(parse_wrapper(FormatStandard::Next, data, "out", &mut c), Ok(1));
    assert_eq!(ids(&c), vec![1, 2, 3, 11]);
}

#[test]
fn second_frame_resumes_where_each_rank_stopped() {
    let h = Header { block_atoms: 4, ranks: 2, mask: POSITION, item_bytes: 36, frames: 2 };
    let mut data = header_bytes(&h);
    for s in [atom_slot(1), sentinel(), atom_slot(2), sentinel()] {
        data.extend(s);
    }
    for s in [atom_slot(11), sentinel(), atom_slot(12), sentinel()] {
        data.extend(s);
    }
    let mut c = Collector::default();
    assert_eq!(parse_wrapper(FormatStandard::Next, data, "out", &mut c), Ok(1));
    assert_eq!(ids(&c), vec![1, 11, 2, 12]);
    assert_eq!(c.frames, vec![0, 1]);
    assert_eq!(c.ended_frames, 2);
}

#[test]
fn velocity_only_mask_decodes_velocity() {
    let h = Header { block_atoms: 2, ranks: 1, mask: VELOCITY, item_bytes: 36, frames: 1 };
    let mut data = header_bytes(&h);
    data.extend(slot(5, 2, (1.5, 2.5, 3.5)));
    data.extend(sentinel());
    let mut c = Collector::default();
    assert_eq!(parse_wrapper(FormatStandard::Next, data, "out", &mut c), Ok(1));
    assert_eq!(c.atoms.len(), 1);
    assert_eq!(c.atoms[0].atom_location, VectorBits { x: 0, y: 0, z: 0 });
    assert_eq!(c.atoms[0].atom_velocity.y, 2.5f64.to_bits());
    assert_eq!(c.atoms[0].get_name_by_ele_name(), "Ni");
}

#[test]
fn short_header_is_bad() {
    let h = Header { block_atoms: 4, ranks: 2, mask: POSITION, item_bytes: 36, frames: 1 };
    let data = header_bytes(&h)[..79].to_vec();
    let mut c = Collector::default();
    assert_eq!(parse_wrapper(FormatStandard::Next, data, "out", &mut c), Err(ParseError::BadHeader));
    assert_eq!(c.started, 0);
}

#[test]
fn slot_size_must_match_mask() {
    let h = Header { block_atoms: 4, ranks: 2, mask: POSITION, item_bytes: 40, frames: 1 };
    assert_eq!(make_parser(header_bytes(&h)).err(), Some(ParseError::BadHeader));
    let h = Header { block_atoms: 4, ranks: 0, mask: POSITION, item_bytes: 36, frames: 1 };
    assert_eq!(make_parser(header_bytes(&h)).err(), Some(ParseError::BadHeader));
}

#[test]
fn truncated_data_is_an_io_failure() {
    let h = Header { block_atoms: 4, ranks: 1, mask: POSITION, item_bytes: 36, frames: 1 };
    let mut data = header_bytes(&h);
    data.extend(atom_slot(1));
    data.extend(atom_slot(2));
    let mut c = Collector::default();
    assert_eq!(parse_wrapper(FormatStandard::Next, data, "out", &mut c), Err(ParseError::IoFailure));
    assert_eq!(ids(&c), vec![1, 2]);
}

#[test]
fn legacy_format_is_not_decoded_here() {
    let mut c = Collector::default();
    assert_eq!(parse_wrapper(FormatStandard::Current, vec![], "out", &mut c), Err(ParseError::Unsupported));
}

#[test]
fn element_names() {
    let mut a = TypeAtom {
        id: 0,
        tp: -1,
        inter_type: 0,
        atom_location: VectorBits { x: 0, y: 0, z: 0 },
        atom_velocity: VectorBits { x: 0, y: 0, z: 0 },
        atom_force: VectorBits { x: 0, y: 0, z: 0 },
    };
    assert_eq!(a.get_name_by_ele_name(), "V");
    a.tp = 0;
    assert_eq!(a.get_name_by_ele_name(), "Fe");
    a.tp = 1;
    assert_eq!(a.get_name_by_ele_name(), "Cu");
    a.tp = 7;
    assert_eq!(a.get_name_by_ele_name(), "Unknown");
}

#[test]
fn sink_receives_lifecycle_calls_in_order() {
    let h = Header { block_atoms: 4, ranks: 2, mask: POSITION, item_bytes: 36, frames: 2 };
    let mut data = header_bytes(&h);
    for s in [atom_slot(1), sentinel(), atom_slot(2), sentinel()] {
        data.extend(s);
    }
    for s in [sentinel(), atom_slot(12), sentinel(), padding()] {
        data.extend(s);
    }
    let mut c = Collector::default();
    assert_eq!(parse_wrapper(FormatStandard::Next, data, "out", &mut c), Ok(1));
    let expected = [
        "start", "before 0", "atom 1", "after", "before 1", "atom 2", "atom 12", "after", "done",
    ];
    assert_eq!(c.calls, expected.iter().map(|s| s.to_string()).collect::<Vec<String>>());
}

#[test]
fn sink_receives_nothing_on_bad_header() {
    let h = Header { block_atoms: 4, ranks: 2, mask: POSITION, item_bytes: 12, frames: 1 };
    let mut c = Collector::default();
    assert_eq!(parse_wrapper(FormatStandard::Next, header_bytes(&h), "out", &mut c), Err(ParseError::BadHeader));
    assert!(c.calls.is_empty());
}

use deluge_rust::harness::diff::{compare_read, Captured, Divergence, Node};
use deluge_rust::harness::fill_reference::{
    finish_fill_over_buffers, ConvertState, FillReference, Geometry as ReferenceGeometry,
    Neighbour, ReferenceCall, ReferenceResult,
};
use deluge_rust::harness::mapping::{locate, Geometry};
use deluge_rust::harness::ops::{Entry, FsOps, FsOpsMut, Op};
use deluge_rust::harness::paths::join_path;
use deluge_rust::harness::ram_disk::RamDisk;
use std::collections::BTreeMap;

#[test]
fn locate_and_total_frames_match_hand_worked_geometry() {
    let geo = Geometry {
        audio_data_start_bytes: 0,
        audio_data_length_bytes: 1536, // 3 * 512
        cluster_size_bytes: 512,
        byte_depth: 3,
        num_channels: 1,
    };
    assert_eq!(geo.frame_stride(), 3);
    assert_eq!(geo.total_frames(), 512);
    assert_eq!(locate(0, &geo), (0, 0));
    assert_eq!(locate(170, &geo), (0, 510)); // last whole-in-cluster-0 frame start
    assert_eq!(locate(171, &geo), (1, 1)); // 171*3 = 513 -> cluster 1, offset 1
    assert_eq!(locate(511, &geo), (2, 509)); // last frame: 511*3=1533 -> cluster 2, offset 509
}

#[test]
fn total_frames_excludes_a_partial_tail_frame() {
    let geo = Geometry {
        audio_data_start_bytes: 0,
        audio_data_length_bytes: 1636,
        cluster_size_bytes: 512,
        byte_depth: 3,
        num_channels: 1,
    };
    // 545 * 3 == 1635 <= 1636, and 546 * 3 == 1638 > 1636.
    assert_eq!(geo.total_frames(), 545);
}

#[test]
fn frames_are_located_past_the_header() {
    let geo = Geometry {
        audio_data_start_bytes: 44,
        audio_data_length_bytes: 100_000,
        cluster_size_bytes: 512,
        byte_depth: 2,
        num_channels: 2,
    };
    assert_eq!(geo.frame_stride(), 4);
    assert_eq!(locate(0, &geo), (0, 44));
    assert_eq!(locate(117, &geo), (1, 0));
}

// ---- the disk image ----

#[test]
fn the_image_reads_back_what_was_written() {
    let mut d = RamDisk::load_bytes(&[1, 2, 3, 4]);
    assert_eq!(d.len(), 4);
    d.write_at(2, &[9, 8, 7]); // grows
    assert_eq!(d.snapshot(), vec![1, 2, 9, 8, 7]);
    let mut buf = [0; 3];
    assert_eq!(d.read_at(2, &mut buf), 3);
    assert_eq!(buf, [9, 8, 7]);
}

#[test]
fn reads_past_the_end_are_short() {
    let d = RamDisk::load_bytes(&[1, 2, 3]);
    let mut buf = [7; 4];
    assert_eq!(d.read_at(2, &mut buf), 1);
    assert_eq!(buf, [3, 7, 7, 7]);
    assert_eq!(d.read_at(3, &mut buf), 0);
    assert_eq!(d.read_at(u64::MAX, &mut buf), 0);
    assert_eq!(buf, [3, 7, 7, 7]);
}

#[test]
fn writes_past_the_end_leave_zeros_between() {
    let mut d = RamDisk::load_bytes(&[1]);
    d.write_at(3, &[5]);
    assert_eq!(d.snapshot(), vec![1, 0, 0, 5]);
    d.write_at(0, &[]);
    assert_eq!(d.len(), 4);
}

// ---- comparing file trees ----

fn entry(name: &str, size: u64, is_dir: bool) -> Entry {
    Entry {
        name: name.to_string(),
        size,
        is_dir,
    }
}

fn tree(x: &[u8]) -> Captured {
    Captured::literal(Node::Dir(vec![
        (
            entry("A", 0, true),
            Node::Dir(vec![(entry("X", 2, false), Node::File(x.to_vec()))]),
        ),
        (entry("Y", 1, false), Node::File(vec![7])),
    ]))
}

#[test]
fn paths_join_with_one_slash() {
    assert_eq!(join_path("/", &"A".to_string()), "/A");
    assert_eq!(join_path("/A", &"B".to_string()), "/A/B");
}

#[test]
fn captured_trees_are_read_by_path() {
    let t = tree(&[1, 2]);
    assert_eq!(t.read_file("/A/X"), vec![1, 2]);
    assert_eq!(t.read_file("/Y"), vec![7]);
    assert_eq!(t.read_dir("/"), vec![entry("A", 0, true), entry("Y", 1, false)]);
    assert_eq!(t.read_dir("/A"), vec![entry("X", 2, false)]);
}

#[test]
fn equal_trees_do_not_diverge() {
    assert_eq!(compare_read(&tree(&[1, 2]), &tree(&[1, 2])), Ok(()));
    let c = Captured::capture(&tree(&[1, 2]));
    assert_eq!(compare_read(&c, &tree(&[1, 2])), Ok(()));
}

#[test]
fn the_first_file_that_differs_is_named() {
    assert_eq!(
        compare_read(&tree(&[1, 2]), &tree(&[1, 3, 4])),
        Err(Divergence::File {
            path: "/A/X".to_string(),
            got_len: 2,
            want_len: 3
        })
    );
}

#[test]
fn directories_that_differ_are_named() {
    let other = Captured::literal(Node::Dir(vec![(
        entry("A", 0, true),
        Node::Dir(Vec::new()),
    )]));
    assert_eq!(
        compare_read(&tree(&[1]), &other),
        Err(Divergence::Dir {
            path: "/".to_string(),
            got: vec![entry("A", 0, true), entry("Y", 1, false)],
            want: vec![entry("A", 0, true)],
        })
    );
}

#[test]
fn divergences_are_put_into_words() {
    let file = compare_read(&tree(&[1, 2]), &tree(&[1, 3, 4])).unwrap_err();
    assert_eq!(file.describe(), "file /A/X: 2 vs 3 bytes / content differs");
    let dir = Divergence::Dir {
        path: "/".to_string(),
        got: vec![entry("A", 0, true), entry("a \"b\"", 1234567890, false)],
        want: Vec::new(),
    };
    assert_eq!(
        dir.describe(),
        "dir /: got=[Entry { name: \"A\", size: 0, is_dir: true }, \
         Entry { name: \"a \\\"b\\\"\", size: 1234567890, is_dir: false }] want=[]"
    );
    if let Divergence::Dir { path, got, want } = &dir {
        assert_eq!(dir.describe(), format!("dir {path}: got={got:?} want={want:?}"));
    }
}

/// A file system that is neither captured nor fixed.
struct Live {
    files: BTreeMap<String, Vec<u8>>,
    dirs: Vec<String>,
    log: Vec<String>,
}

impl FsOps for Live {
    fn read_file(&self, path: &str) -> Vec<u8> {
        self.files[path].clone()
    }

    fn read_dir(&self, path: &str) -> Vec<Entry> {
        let prefix = if path == "/" {
            "/".to_string()
        } else {
            format!("{path}/")
        };
        let mut out = Vec::new();
        for d in &self.dirs {
            if let Some(rest) = d.strip_prefix(&prefix) {
                if !rest.is_empty() && !rest.contains('/') {
                    out.push(entry(rest, 0, true));
                }
            }
        }
        for (f, b) in &self.files {
            if let Some(rest) = f.strip_prefix(&prefix) {
                if !rest.contains('/') {
                    out.push(entry(rest, b.len() as u64, false));
                }
            }
        }
        out
    }
}

impl FsOpsMut for Live {
    fn mkdir(&mut self, path: &str) {
        self.log.push(format!("mkdir {path}"));
        self.dirs.push(path.to_string());
    }

    fn write_new(&mut self, path: &str, bytes: &Vec<u8>) {
        self.log.push(format!("write {path} {bytes:?}"));
        self.files.insert(path.to_string(), bytes.clone());
    }

    fn append(&mut self, path: &str, bytes: &Vec<u8>) {
        self.log.push(format!("append {path} {bytes:?}"));
        self.files.get_mut(path).unwrap().extend(bytes);
    }

    fn delete(&mut self, path: &str) {
        self.log.push(format!("delete {path}"));
        self.files.remove(path);
    }

    fn rename(&mut self, from: &str, to: &str) {
        self.log.push(format!("rename {from} {to}"));
        let b = self.files.remove(from).unwrap();
        self.files.insert(to.to_string(), b);
    }
}

#[test]
fn each_change_is_made_as_it_says() {
    let mut fs = Live {
        files: BTreeMap::new(),
        dirs: Vec::new(),
        log: Vec::new(),
    };
    for op in [
        Op::Mkdir("/D".to_string()),
        Op::Write("/D/F".to_string(), vec![1]),
        Op::Extend("/D/F".to_string(), vec![2, 3]),
        Op::Rename("/D/F".to_string(), "/D/G".to_string()),
        Op::Write("/H".to_string(), vec![]),
        Op::Delete("/H".to_string()),
    ] {
        fs.apply(&op);
    }
    assert_eq!(
        fs.log,
        vec![
            "mkdir /D",
            "write /D/F [1]",
            "append /D/F [2, 3]",
            "rename /D/F /D/G",
            "write /H []",
            "delete /H"
        ]
    );
    let want = Captured::literal(Node::Dir(vec![(
        entry("D", 0, true),
        Node::Dir(vec![(entry("G", 3, false), Node::File(vec![1, 2, 3]))]),
    )]));
    assert_eq!(compare_read(&fs, &want), Ok(()));
    assert_eq!(compare_read(&Captured::capture(&fs), &fs), Ok(()));
}

// ---- the reference fill ----

struct Flip;

impl FillReference for Flip {
    fn finish_fill(call: ReferenceCall) -> ReferenceResult {
        let mut state = call.state;
        state.first_three_bytes = [call.payload[0], call.cluster_index as u8, 0];
        state.start_converted = call.prev.is_some();
        ReferenceResult {
            payload: call.payload.iter().map(|b| !b).collect(),
            state,
            prev: call.prev.map(|(b, end)| (b.iter().rev().copied().collect(), !end)),
            next: call
                .next
                .map(|(b, head, start)| (b.iter().map(|x| x ^ head[0]).collect(), !start)),
        }
    }
}

#[test]
fn the_reference_is_run_over_the_chunk_and_its_neighbours() {
    let geo = ReferenceGeometry {
        audio_data_start_pos_bytes: 0,
        audio_data_length_bytes: 100,
        first_cluster_index_with_no_audio_data: 9,
        cluster_size: 16,
        cluster_size_magnitude: 4,
        raw_data_format: 0,
    };
    let mut payload: Vec<u8> = (0..23).collect();
    let mut state = ConvertState {
        first_three_bytes: [0; 3],
        start_converted: false,
        end_converted: true,
    };
    let (p, n) = finish_fill_over_buffers::<Flip>(
        &mut payload,
        2,
        &geo,
        &mut state,
        Some(Neighbour {
            payload: (0..23).collect(),
            unconverted_head: [1; 3],
            start_converted: false,
            end_converted: false,
        }),
        Some(Neighbour {
            payload: vec![1; 23],
            unconverted_head: [2; 3],
            start_converted: true,
            end_converted: true,
        }),
    );
    assert_eq!(payload, (0..23u8).map(|b| !b).collect::<Vec<u8>>());
    assert_eq!(
        state,
        ConvertState {
            first_three_bytes: [0, 2, 0],
            start_converted: true,
            end_converted: true
        }
    );
    let (p, n) = (p.unwrap(), n.unwrap());
    assert_eq!(p.payload, (0..23).rev().collect::<Vec<u8>>());
    assert!(p.end_converted && !p.start_converted);
    assert_eq!(n.payload, vec![3; 23]);
    assert!(!n.start_converted && n.end_converted);
    let (p, n) = finish_fill_over_buffers::<Flip>(&mut payload, 2, &geo, &mut state, None, None);
    assert!(p.is_none() && n.is_none());
}

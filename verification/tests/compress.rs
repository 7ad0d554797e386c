use crush::compress::{
    command, compress, compress_command, compress_labeled, finish, looks_crushed, with_header,
    MIN_BYTES_SAVED, MIN_RAW_BYTES,
};
use crush::markers;
use crush::transforms::unfold_columnar;
use serde_json::Value;

/// A tool's input with one command.
fn input(command: &str) -> Value {
    let mut map = serde_json::Map::new();
    map.insert("command".to_string(), Value::from(command));
    Value::Object(map)
}

#[test]
fn passes_through_output_below_size_floor() {
    let small = "x".repeat(MIN_RAW_BYTES - 1);
    assert!(compress("bash", &input("echo"), &small).is_none());
}

#[test]
fn passes_through_when_no_transform_helps() {
    let mut big = String::new();
    for i in 0..300 {
        big.push_str(&format!("the quick brown fox {i} jumps over a lazy dog\n"));
    }
    assert!(compress("bash", &input("echo"), &big).is_none());
}

#[test]
fn compresses_a_json_array_over_the_floor() {
    let mut arr = String::from("[");
    for i in 0..200 {
        if i > 0 {
            arr.push(',');
        }
        arr.push_str(&format!(
            r#"{{"name":"item{i}","value":{i},"active":true}}"#
        ));
    }
    arr.push(']');
    let out = compress("bash", &input("echo"), &arr).expect("should compress");
    assert!(out.starts_with("[@crush/1"));
    assert!(out.len() < arr.len());
}

#[test]
fn refuses_to_double_compress_its_own_output() {
    // Compress a large array once, then hand the result in again.
    let mut arr = String::from("[");
    for i in 0..200 {
        if i > 0 {
            arr.push(',');
        }
        arr.push_str(&format!(r#"{{"name":"item{i}","value":{i}}}"#));
    }
    arr.push(']');
    let once = compress("bash", &input("echo"), &arr).expect("first pass");
    assert!(compress("bash", &input("echo"), &once).is_none());
}

#[test]
fn refuses_input_containing_crush_markers() {
    let mut s = String::from("@crush/1.cols a b c\n");
    s.push_str(&"some line of data here\n".repeat(200));
    assert!(compress("ls", &Value::Object(serde_json::Map::new()), &s).is_none());
}

struct Rng(u64);

impl Rng {
    fn next(&mut self) -> u64 {
        let mut x = self.0;
        x ^= x << 13;
        x ^= x >> 7;
        x ^= x << 17;
        self.0 = x;
        x
    }
    fn below(&mut self, n: usize) -> usize {
        (self.next() % n as u64) as usize
    }
}

#[test]
fn fuzz_compress_invariants() {
    // Never panics, gives a strictly smaller output if any, and is deterministic.
    let tools = ["ls", "ps", "bash", "grep", "read", ""];
    let cmds = [
        "ls -lah /usr/bin",
        "ps aux",
        "git log --pretty=a|b|c",
        "cat x",
        "echo",
    ];
    let pool = b"abcXYZ 0129 \t\n:/|=.-_[]{}\",";
    let mut rng = Rng(0x0bad_f00d_1234_5678);
    for _ in 0..8000 {
        let len = rng.below(6000);
        let mut out = String::with_capacity(len);
        for _ in 0..len {
            out.push(pool[rng.below(pool.len())] as char);
        }
        let tool = tools[rng.below(tools.len())];
        let input = input(cmds[rng.below(cmds.len())]);

        let a = compress(tool, &input, &out);
        // Never enlarges.
        if let Some(ref s) = a {
            assert!(s.len() < out.len(), "enlarged {} -> {}", out.len(), s.len());
        }
        // The same input gives the same output.
        let b = compress(tool, &input, &out);
        assert_eq!(a, b, "non-deterministic output");
    }
}

fn ls_listing() -> String {
    let mut s = String::from("total 1.9G\n");
    for i in 0..100 {
        s.push_str(&format!(
            "-rwxr-xr-x  1 root root    {:>3}K Jun 28 18:51 binary {i}.sh\n",
            10 + i
        ));
    }
    s
}

#[test]
fn a_compressed_listing_unfolds() {
    let s = ls_listing();
    let (out, label) = compress_labeled("bash", &input("ls -lah"), &s).unwrap();
    assert_eq!(label, "ls");
    let restored = unfold_columnar(&out).unwrap();
    let mut expect = String::from("total 1.9G");
    for i in 0..100 {
        expect.push_str(&format!(
            "\n-rwxr-xr-x 1 root root {}K Jun 28 18:51 binary {i}.sh",
            10 + i
        ));
    }
    assert_eq!(restored, expect);
    // Without a line to hold aside, the provenance line takes its place.
    let rows = s.strip_prefix("total 1.9G\n").unwrap();
    let (out, _) = compress_labeled("ls", &Value::Null, rows).unwrap();
    let header = out.lines().next().unwrap().to_string();
    let restored = unfold_columnar(&out).unwrap();
    assert_eq!(restored, expect.replacen("total 1.9G", &header, 1));
}

#[test]
fn nothing_is_compressed_twice_or_enlarged() {
    for (tool, text) in [("ls", ls_listing()), ("cat", "line\n".repeat(900))] {
        let (out, _) = compress_command(tool, "", &text).unwrap();
        assert!(out.len() + MIN_BYTES_SAVED <= text.len());
        assert!(looks_crushed(&out));
        for again in ["ls", "bash", ""] {
            assert!(compress_command(again, "ls", &out).is_none());
        }
    }
}

#[test]
fn the_provenance_line_is_this_text() {
    assert_eq!(
        with_header(2709, 1591, "body\nmore"),
        "[@crush/1 2709→1591 bytes (-41%)]\nbody\nmore"
    );
    assert_eq!(with_header(1, 1, ""), "[@crush/1 1→1 bytes (-0%)]\n");
    assert_eq!(with_header(10, 0, ""), "[@crush/1 10→0 bytes (-100%)]\n");
}

#[test]
fn the_savings_must_be_enough() {
    let output = "o".repeat(MIN_RAW_BYTES);
    let head = "[@crush/1 2048→1750 bytes (-14%)]\n";
    // 36 bytes of header, 1756 of body, and 256 saved.
    assert_eq!(head.len(), 36);
    let fits = "b".repeat(1756);
    let (out, label) = finish(&output, Some((fits, "text"))).unwrap();
    assert_eq!(out.len(), MIN_RAW_BYTES - MIN_BYTES_SAVED);
    assert_eq!(label, "text");
    assert!(finish(&output, Some(("b".repeat(1757), "text"))).is_none());
    assert!(finish(&output, None).is_none());
    assert!(finish(&"o".repeat(MIN_RAW_BYTES - 1), Some((String::new(), "text"))).is_none());
    let marked = format!("{output}@crush/");
    assert!(finish(&marked, Some((String::new(), "text"))).is_none());
}

#[test]
fn markers_are_found_anywhere() {
    assert!(looks_crushed("x@crush/9y"));
    assert!(looks_crushed("@crush/"));
    assert!(!looks_crushed("@crush"));
    assert!(!looks_crushed(""));
    assert!(!looks_crushed("@crush.prefix=/a/"));
    for marker in [markers::VERSION, markers::COLS, markers::DICT, markers::TABLE] {
        assert!(looks_crushed(marker));
    }
    assert_eq!(markers::PREFIX, "@crush/1.prefix=");
    assert_eq!(markers::BLOB, "@crush/1.blob");
}

#[test]
fn the_command_is_taken_from_the_input() {
    assert_eq!(command(&input("ls -l")), "ls -l");
    assert_eq!(command(&Value::Null), "");
    assert_eq!(command(&Value::from("ls")), "");
    let mut map = serde_json::Map::new();
    map.insert("command".to_string(), Value::from(3));
    assert_eq!(command(&Value::Object(map)), "");
}

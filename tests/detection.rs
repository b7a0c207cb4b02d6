use cmlterm::cache::RollingCache;
use cmlterm::driver::{ConsoleCtx, ConsoleDriver};
use cmlterm::prompt::{find_prompt_bytes, find_prompt_text, DeviceClass};

const ALL: [DeviceClass; 4] = [DeviceClass::Ios, DeviceClass::Asa, DeviceClass::Linux, DeviceClass::Unknown];

fn detect(s: &str, class: DeviceClass) -> Option<(String, bool)> {
    find_prompt_bytes(s.as_bytes(), class)
}

fn driver(class: DeviceClass) -> ConsoleDriver<()> {
    ConsoleDriver::from_connection(ConsoleCtx::new("r1".to_string(), class), ())
}

#[test]
fn clean_prompt_every_class() {
    for class in ALL {
        assert_eq!(detect("show clock\n12:00\nRouter1#", class), Some(("Router1#".to_string(), true)));
    }
}

#[test]
fn surrounding_whitespace_is_trimmed() {
    assert_eq!(detect("  Router1#  \r\n\t", DeviceClass::Ios), Some(("Router1#".to_string(), true)));
}

#[test]
fn ios_config_mode_accepted() {
    let line = "Router1(config-if)#";
    assert_eq!(line.len(), 19);
    assert_eq!(detect(line, DeviceClass::Ios), Some((line.to_string(), true)));
}

#[test]
fn ios_disallowed_char_rejected() {
    assert_eq!(detect("Router1!#", DeviceClass::Ios), None);
}

#[test]
fn ios_length_bound() {
    let ok = format!("{}#", "a".repeat(81));
    assert_eq!(detect(&ok, DeviceClass::Ios), Some((ok.clone(), true)));
    let long = format!("{}#", "a".repeat(82));
    assert_eq!(detect(&long, DeviceClass::Ios), None);
    assert_eq!(detect("#", DeviceClass::Ios), None);
}

#[test]
fn ios_bound_counts_bytes() {
    let ok = format!("{}#", "\u{e9}".repeat(40));
    assert_eq!(detect(&ok, DeviceClass::Ios), Some((ok.clone(), true)));
    let long = format!("{}#", "\u{e9}".repeat(41));
    assert_eq!(detect(&long, DeviceClass::Ios), None);
}

#[test]
fn asa_config_mode_accepted() {
    assert_eq!(detect("fw-edge1(config)#", DeviceClass::Asa), Some(("fw-edge1(config)#".to_string(), true)));
}

#[test]
fn asa_leading_hyphen_rejected() {
    assert_eq!(detect("-fw1#", DeviceClass::Asa), None);
}

#[test]
fn asa_bad_end_and_chars_rejected() {
    assert_eq!(detect("fw1-#", DeviceClass::Asa), None);
    assert_eq!(detect("fw.1#", DeviceClass::Asa), None);
    assert_eq!(detect("fw.1#", DeviceClass::Ios), Some(("fw.1#".to_string(), true)));
}

#[test]
fn linux_dollar_prompt() {
    assert_eq!(detect("user@host:~$", DeviceClass::Linux), Some(("user@host:~$".to_string(), true)));
    assert_eq!(detect("user@host:~$", DeviceClass::Unknown), Some(("user@host:~$".to_string(), true)));
    assert_eq!(detect("user@host:~$", DeviceClass::Ios), None);
}

#[test]
fn linux_long_line_rejected() {
    let long = format!("{}$", "x".repeat(101));
    assert_eq!(detect(&long, DeviceClass::Linux), None);
    assert_eq!(detect(&long, DeviceClass::Unknown), None);
    let edge = format!("{}$", "x".repeat(99));
    assert_eq!(detect(&edge, DeviceClass::Linux), Some((edge.clone(), true)));
}

#[test]
fn unknown_accepts_angle_bracket() {
    assert_eq!(detect("switch>", DeviceClass::Unknown), Some(("switch>".to_string(), true)));
    assert_eq!(detect("switch>", DeviceClass::Linux), None);
}

#[test]
fn prompt_is_prefix_through_first_terminator() {
    assert_eq!(detect("Router1#show version", DeviceClass::Ios), Some(("Router1#".to_string(), false)));
}

#[test]
fn bottom_most_candidate_wins() {
    let w = "show version#\nCisco IOS Software\n\nRouter1#";
    assert_eq!(detect(w, DeviceClass::Ios), Some(("Router1#".to_string(), true)));
    let w2 = "Router1#\nsome output follows";
    assert_eq!(detect(w2, DeviceClass::Ios), Some(("Router1#".to_string(), false)));
}

#[test]
fn non_utf8_yields_none() {
    for class in ALL {
        assert_eq!(find_prompt_bytes(&[0xff, 0xfe, 0xfd], class), None);
    }
}

#[test]
fn empty_window_yields_none() {
    assert_eq!(detect("", DeviceClass::Unknown), None);
    assert_eq!(detect("\n\n  \n", DeviceClass::Unknown), None);
}

#[test]
fn detection_on_decoded_text() {
    let text: Vec<char> = "out\nR2>".chars().collect();
    assert_eq!(find_prompt_text(&text, DeviceClass::Ios), Some(("R2>".chars().collect(), true)));
}

#[test]
fn first_chunk_flag_only_once() {
    let mut d = driver(DeviceClass::Ios);
    let mut flags = Vec::new();
    for i in 0..10u8 {
        flags.push(d.handle_data_chunk(vec![b'a' + i]).was_first);
    }
    assert_eq!(flags[0], true);
    assert!(flags[1..].iter().all(|f| !f));
    assert_eq!(d.received_chunks(), 10);
}

#[test]
fn prompt_split_across_chunks() {
    let mut d = driver(DeviceClass::Ios);
    let u1 = d.handle_data_chunk(b"output line\nRou".to_vec());
    assert_eq!(u1.last_prompt, None);
    let u2 = d.handle_data_chunk(b"ter1#".to_vec());
    assert_eq!(u2.last_chunk, b"ter1#".to_vec());
    assert_eq!(u2.cache_ref, b"output line\nRouter1#".to_vec());
    assert_eq!(u2.last_prompt, Some(("Router1#".to_string(), true)));
}

#[test]
fn driver_keeps_context() {
    let d = driver(DeviceClass::Asa);
    assert_eq!(d.context().name, "r1");
    assert_eq!(d.context().class, DeviceClass::Asa);
    assert_eq!(d.received_chunks(), 0);
    assert_eq!(d.find_prompt(b"fw1#"), Some(("fw1#".to_string(), true)));
}

#[test]
fn cache_evicts_oldest() {
    let mut c = RollingCache::with_capacity(2);
    c.insert(&b"ab".to_vec());
    c.insert(&b"cd".to_vec());
    assert_eq!(c.window(), b"abcd".to_vec());
    c.insert(&b"ef".to_vec());
    assert_eq!(c.len(), 2);
    assert_eq!(c.window(), b"cdef".to_vec());
}

#[test]
fn driver_window_is_bounded() {
    let mut d = driver(DeviceClass::Linux);
    let mut last = None;
    for _ in 0..300 {
        last = Some(d.handle_data_chunk(b"x".to_vec()));
    }
    assert_eq!(last.unwrap().cache_ref.len(), 256);
}

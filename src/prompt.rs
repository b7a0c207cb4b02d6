use vstd::prelude::*;

verus! {

/// Heuristic category of a device, deciding which prompt rule applies.
#[derive(Clone, Copy, Debug, PartialEq, Eq, Structural)]
pub enum DeviceClass {
    Ios,
    Asa,
    Linux,
    Unknown,
}

/// The characters that `std::str::from_utf8` decodes from a byte sequence,
/// or `None` where the bytes are not valid UTF-8.
pub uninterp spec fn utf8_chars(b: Seq<u8>) -> Option<Seq<char>>;

/// Whether `char::is_alphanumeric` holds of a character.
pub uninterp spec fn is_alnum(c: char) -> bool;

/// Whether `char::is_whitespace` holds of a character.
pub uninterp spec fn is_space(c: char) -> bool;

pub open spec fn is_ascii_alnum(c: char) -> bool {
    ('a' <= c && c <= 'z') || ('A' <= c && c <= 'Z') || ('0' <= c && c <= '9')
}

pub open spec fn is_ascii_space(c: char) -> bool {
    c == ' ' || c == '\t' || c == '\n' || c == '\r' || c == '\x0B' || c == '\x0C'
}

/// Relies on `std::str::from_utf8`: `Ok` exactly for valid UTF-8, whose
/// characters are then collected in order.
#[verifier::external_body]
fn decode_utf8(b: &[u8]) -> (r: Option<Vec<char>>)
    ensures
        match r {
            Some(v) => utf8_chars(b@) == Some(v@),
            None => utf8_chars(b@) is None,
        },
{
    match std::str::from_utf8(b) {
        Ok(s) => Some(s.chars().collect()),
        Err(_) => None,
    }
}

/// Relies on `char::is_alphanumeric`; on ASCII it holds of letters and digits only.
#[verifier::external_body]
fn char_is_alphanumeric(c: char) -> (r: bool)
    ensures
        r == is_alnum(c),
        (c as u32) < 128 ==> (r <==> is_ascii_alnum(c)),
{
    c.is_alphanumeric()
}

/// Relies on `char::is_whitespace`; on ASCII it holds of tab, line feed,
/// vertical tab, form feed, carriage return and space only.
#[verifier::external_body]
fn char_is_whitespace(c: char) -> (r: bool)
    ensures
        r == is_space(c),
        (c as u32) < 128 ==> (r <==> is_ascii_space(c)),
{
    c.is_whitespace()
}

/// Relies on `String::from_iter`: the string holds exactly the given characters.
#[verifier::external_body]
fn string_of_chars(v: &Vec<char>) -> (r: String)
    ensures
        r@ == v@,
{
    v.iter().collect()
}

// ---------------------------------------------------------------------------
// The model of prompt detection
// ---------------------------------------------------------------------------

/// Number of bytes that the UTF-8 encoding of `c` takes.
pub open spec fn char_width(c: char) -> nat {
    if (c as u32) < 0x80 {
        1
    } else if (c as u32) < 0x800 {
        2
    } else if (c as u32) < 0x10000 {
        3
    } else {
        4
    }
}

/// Number of bytes that the UTF-8 encoding of `s` takes.
pub open spec fn byte_len(s: Seq<char>) -> nat
    decreases s.len(),
{
    if s.len() == 0 {
        0
    } else {
        byte_len(s.drop_last()) + char_width(s.last())
    }
}

/// `s` without its trailing whitespace.
pub open spec fn trim_end(s: Seq<char>) -> Seq<char>
    decreases s.len(),
{
    if s.len() > 0 && is_space(s.last()) {
        trim_end(s.drop_last())
    } else {
        s
    }
}

/// `s` without its leading whitespace.
pub open spec fn trim_start(s: Seq<char>) -> Seq<char>
    decreases s.len(),
{
    if s.len() > 0 && is_space(s[0]) {
        trim_start(s.drop_first())
    } else {
        s
    }
}

/// `s` without its surrounding whitespace.
pub open spec fn trim(s: Seq<char>) -> Seq<char> {
    trim_start(trim_end(s))
}

/// The lines of `s`: the pieces between line feeds, in order. A text
/// without a line feed is one line; a trailing line feed ends in an empty one.
pub open spec fn lines(s: Seq<char>) -> Seq<Seq<char>>
    decreases s.len(),
{
    if s.len() == 0 {
        seq![Seq::empty()]
    } else {
        let prev = lines(s.drop_last());
        if s.last() == '\n' {
            prev.push(Seq::empty())
        } else {
            prev.update(prev.len() - 1, prev.last().push(s.last()))
        }
    }
}

/// The characters that end a prompt on a device of the class.
pub open spec fn is_terminator(class: DeviceClass, c: char) -> bool {
    match class {
        DeviceClass::Ios | DeviceClass::Asa => c == '>' || c == '#',
        DeviceClass::Linux => c == '$' || c == '#',
        DeviceClass::Unknown => c == '>' || c == '$' || c == '#',
    }
}

/// Index of the first terminator in `line` at `i` or after.
pub open spec fn terminator_from(class: DeviceClass, line: Seq<char>, i: int) -> Option<int>
    decreases line.len() - i,
{
    if i < 0 || i >= line.len() {
        None
    } else if is_terminator(class, line[i]) {
        Some(i)
    } else {
        terminator_from(class, line, i + 1)
    }
}

pub open spec fn ios_body_char(c: char) -> bool {
    is_alnum(c) || c == '.' || c == '-' || c == '_' || c == '(' || c == ')'
}

pub open spec fn asa_body_char(c: char) -> bool {
    is_alnum(c) || c == '-' || c == '(' || c == ')'
}

/// Whether `p`, a prompt ending in its terminator, is acceptable for the class.
pub open spec fn accepts(class: DeviceClass, p: Seq<char>) -> bool {
    let body = p.drop_last();
    match class {
        DeviceClass::Ios => 2 <= byte_len(p) <= 82 && forall|j: int|
            0 <= j < body.len() ==> ios_body_char(#[trigger] body[j]),
        DeviceClass::Asa => 2 <= byte_len(p) <= 82 && body.len() > 0 && is_alnum(body[0]) && (
        is_alnum(body.last()) || body.last() == ')') && forall|j: int|
            0 <= j < body.len() ==> asa_body_char(#[trigger] body[j]),
        DeviceClass::Linux | DeviceClass::Unknown => byte_len(p) <= 100,
    }
}

/// The prompt that a trimmed line offers: its prefix through the first
/// terminator, where the class accepts it.
pub open spec fn candidate(class: DeviceClass, line: Seq<char>) -> Option<Seq<char>> {
    match terminator_from(class, line, 0) {
        Some(i) => if accepts(class, line.take(i + 1)) {
            Some(line.take(i + 1))
        } else {
            None
        },
        None => None,
    }
}

/// The candidate of the bottom-most line of `ls` that yields one.
pub open spec fn last_candidate(class: DeviceClass, ls: Seq<Seq<char>>) -> Option<Seq<char>>
    decreases ls.len(),
{
    if ls.len() == 0 {
        None
    } else {
        match candidate(class, trim(ls.last())) {
            Some(p) => Some(p),
            None => last_candidate(class, ls.drop_last()),
        }
    }
}

/// The prompt found in a decoded window, with whether the window, right-trimmed,
/// ends with it.
pub open spec fn detect_text(s: Seq<char>, class: DeviceClass) -> Option<(Seq<char>, bool)> {
    match last_candidate(class, lines(s)) {
        Some(p) => Some((p, p.is_suffix_of(trim_end(s)))),
        None => None,
    }
}

/// The prompt found in a window of raw bytes: none where the bytes are not UTF-8.
pub open spec fn detect(b: Seq<u8>, class: DeviceClass) -> Option<(Seq<char>, bool)> {
    match utf8_chars(b) {
        Some(s) => detect_text(s, class),
        None => None,
    }
}

pub open spec fn chars_view(o: Option<(Vec<char>, bool)>) -> Option<(Seq<char>, bool)> {
    match o {
        Some((v, t)) => Some((v@, t)),
        None => None,
    }
}

pub open spec fn string_view(o: Option<(String, bool)>) -> Option<(Seq<char>, bool)> {
    match o {
        Some((v, t)) => Some((v@, t)),
        None => None,
    }
}

// ---------------------------------------------------------------------------
// Executable detection
// ---------------------------------------------------------------------------

/// Length of `v` once its trailing whitespace is cut.
fn trim_end_len(v: &Vec<char>) -> (e: usize)
    ensures
        e <= v.len(),
        trim_end(v@) == v@.take(e as int),
{
    let mut e: usize = v.len();
    proof {
        assert(v@.take(e as int) =~= v@);
    }
    loop
        invariant
            e <= v.len(),
            trim_end(v@) == trim_end(v@.take(e as int)),
        decreases e,
    {
        if e == 0 {
            return e;
        }
        if !char_is_whitespace(v[e - 1]) {
            return e;
        }
        proof {
            assert(v@.take(e as int).drop_last() =~= v@.take(e - 1));
        }
        e = e - 1;
    }
}

/// The characters of `v` from `a` up to `b`.
fn copy_range(v: &Vec<char>, a: usize, b: usize) -> (r: Vec<char>)
    requires
        a <= b <= v.len(),
    ensures
        r@ == v@.subrange(a as int, b as int),
{
    let mut r: Vec<char> = Vec::new();
    let mut k: usize = a;
    while k < b
        invariant
            a <= k <= b <= v.len(),
            r@ == v@.subrange(a as int, k as int),
        decreases b - k,
    {
        r.push(v[k]);
        proof {
            assert(r@ =~= v@.subrange(a as int, k + 1));
        }
        k = k + 1;
    }
    r
}

/// `v` without its surrounding whitespace.
fn trim_chars(v: &Vec<char>) -> (r: Vec<char>)
    ensures
        r@ == trim(v@),
{
    let e = trim_end_len(v);
    let ghost x = v@.take(e as int);
    let mut a: usize = 0;
    proof {
        assert(x.subrange(0, e as int) =~= x);
    }
    while a < e
        invariant
            a <= e <= v.len(),
            x == v@.take(e as int),
            trim_start(x) == trim_start(x.subrange(a as int, e as int)),
        ensures
            a <= e,
            a == e || !is_space(v@[a as int]),
            trim_start(x) == trim_start(x.subrange(a as int, e as int)),
        decreases e - a,
    {
        if !char_is_whitespace(v[a]) {
            break;
        }
        proof {
            assert(x.subrange(a as int, e as int).drop_first() =~= x.subrange(a + 1, e as int));
        }
        a = a + 1;
    }
    proof {
        assert(x.subrange(a as int, e as int) =~= v@.subrange(a as int, e as int));
        if a < e {
            assert(x.subrange(a as int, e as int)[0] == v@[a as int]);
        }
    }
    copy_range(v, a, e)
}

fn terminates_prompt(class: DeviceClass, c: char) -> (r: bool)
    ensures
        r == is_terminator(class, c),
{
    match class {
        DeviceClass::Ios | DeviceClass::Asa => c == '>' || c == '#',
        DeviceClass::Linux => c == '$' || c == '#',
        DeviceClass::Unknown => c == '>' || c == '$' || c == '#',
    }
}

fn width_of(c: char) -> (w: usize)
    ensures
        w == char_width(c),
{
    let n = c as u32;
    if n < 0x80 {
        1
    } else if n < 0x800 {
        2
    } else if n < 0x10000 {
        3
    } else {
        4
    }
}

/// The UTF-8 length of `p`, where it is at most 100; 101 otherwise.
fn clamped_byte_len(p: &Vec<char>) -> (r: usize)
    ensures
        r == (if byte_len(p@) > 100 { 101 } else { byte_len(p@) }),
{
    let mut total: usize = 0;
    let mut k: usize = 0;
    while k < p.len()
        invariant
            k <= p.len(),
            total == (if byte_len(p@.take(k as int)) > 100 { 101 } else { byte_len(p@.take(k as int)) }),
        decreases p.len() - k,
    {
        proof {
            assert(p@.take(k + 1).drop_last() =~= p@.take(k as int));
        }
        if total <= 100 {
            let t = total + width_of(p[k]);
            total = if t > 100 { 101 } else { t };
        }
        k = k + 1;
    }
    proof {
        assert(p@.take(p.len() as int) =~= p@);
    }
    total
}

/// Whether every character of `p` but its last satisfies the body rule of the class.
fn body_chars_ok(class: DeviceClass, p: &Vec<char>) -> (r: bool)
    requires
        p.len() > 0,
    ensures
        class == DeviceClass::Ios ==> (r <==> forall|j: int|
            0 <= j < p@.drop_last().len() ==> ios_body_char(#[trigger] p@.drop_last()[j])),
        class == DeviceClass::Asa ==> (r <==> forall|j: int|
            0 <= j < p@.drop_last().len() ==> asa_body_char(#[trigger] p@.drop_last()[j])),
{
    let n = p.len() - 1;
    let mut k: usize = 0;
    while k < n
        invariant
            n == p.len() - 1,
            k <= n,
            class == DeviceClass::Ios ==> forall|j: int| 0 <= j < k ==> ios_body_char(#[trigger] p@[j]),
            class == DeviceClass::Asa ==> forall|j: int| 0 <= j < k ==> asa_body_char(#[trigger] p@[j]),
        decreases n - k,
    {
        let c = p[k];
        let alnum = char_is_alphanumeric(c);
        let ok = match class {
            DeviceClass::Asa => alnum || c == '-' || c == '(' || c == ')',
            _ => alnum || c == '.' || c == '-' || c == '_' || c == '(' || c == ')',
        };
        if !ok {
            proof {
                assert(p@.drop_last()[k as int] == p@[k as int]);
            }
            return false;
        }
        k = k + 1;
    }
    proof {
        assert forall|j: int| 0 <= j < p@.drop_last().len() implies p@.drop_last()[j] == p@[j] by {}
    }
    true
}

/// Whether the class accepts `p`, a non-empty prompt ending in its terminator.
fn accepts_prompt(class: DeviceClass, p: &Vec<char>) -> (r: bool)
    requires
        p.len() > 0,
    ensures
        r == accepts(class, p@),
{
    let len = clamped_byte_len(p);
    match class {
        DeviceClass::Linux | DeviceClass::Unknown => len <= 100,
        DeviceClass::Ios => 2 <= len && len <= 82 && body_chars_ok(class, p),
        DeviceClass::Asa => {
            if !(2 <= len && len <= 82) || p.len() < 2 {
                return false;
            }
            let n = p.len() - 1;
            proof {
                assert(p@.drop_last()[0] == p@[0]);
                assert(p@.drop_last().last() == p@[n - 1]);
            }
            if !char_is_alphanumeric(p[0]) {
                return false;
            }
            let last = p[n - 1];
            if !(char_is_alphanumeric(last) || last == ')') {
                return false;
            }
            body_chars_ok(class, p)
        },
    }
}

/// The prompt that a trimmed line offers for the class, if any.
fn candidate_of(class: DeviceClass, line: &Vec<char>) -> (r: Option<Vec<char>>)
    ensures
        match r {
            Some(v) => candidate(class, line@) == Some(v@),
            None => candidate(class, line@) is None,
        },
{
    let mut k: usize = 0;
    while k < line.len()
        invariant
            k <= line.len(),
            terminator_from(class, line@, 0) == terminator_from(class, line@, k as int),
        decreases line.len() - k,
    {
        if terminates_prompt(class, line[k]) {
            let p = copy_range(line, 0, k + 1);
            proof {
                assert(p@ =~= line@.take(k + 1));
            }
            if accepts_prompt(class, &p) {
                return Some(p);
            } else {
                return None;
            }
        }
        k = k + 1;
    }
    None
}

/// Whether `p` is a suffix of `text` with its trailing whitespace cut.
fn ends_trimmed_with(text: &Vec<char>, p: &Vec<char>) -> (r: bool)
    ensures
        r == p@.is_suffix_of(trim_end(text@)),
{
    let e = trim_end_len(text);
    if p.len() > e {
        return false;
    }
    let off = e - p.len();
    let ghost t = text@.take(e as int);
    let mut k: usize = 0;
    while k < p.len()
        invariant
            off + p.len() == e <= text.len(),
            t == text@.take(e as int),
            t == trim_end(text@),
            k <= p.len(),
            forall|j: int| 0 <= j < k ==> p@[j] == text@[off + j],
        decreases p.len() - k,
    {
        if p[k] != text[off + k] {
            proof {
                assert(t.subrange(off as int, e as int)[k as int] == text@[off + k]);
                assert(p@[k as int] != t.subrange(off as int, e as int)[k as int]);
            }
            return false;
        }
        k = k + 1;
    }
    proof {
        assert(p@ =~= t.subrange(off as int, e as int));
    }
    true
}

/// The prompt in a decoded window: the candidate of its bottom-most line that
/// yields one, with whether the right-trimmed window ends with it.
pub fn find_prompt_text(text: &Vec<char>, class: DeviceClass) -> (r: Option<(Vec<char>, bool)>)
    ensures
        chars_view(r) == detect_text(text@, class),
{
    let mut best: Option<Vec<char>> = None;
    let mut cur: Vec<char> = Vec::new();
    let mut i: usize = 0;
    proof {
        assert(text@.take(0) =~= Seq::<char>::empty());
        assert(lines(text@.take(0)).drop_last() =~= Seq::<Seq<char>>::empty());
    }
    while i < text.len()
        invariant
            i <= text.len(),
            lines(text@.take(i as int)).len() >= 1,
            cur@ == lines(text@.take(i as int)).last(),
            match best {
                Some(b) => last_candidate(class, lines(text@.take(i as int)).drop_last()) == Some(b@),
                None => last_candidate(class, lines(text@.take(i as int)).drop_last()) is None,
            },
        decreases text.len() - i,
    {
        let c = text[i];
        let ghost ls = lines(text@.take(i as int));
        proof {
            assert(text@.take(i + 1).drop_last() =~= text@.take(i as int));
            assert(text@.take(i + 1).last() == c);
        }
        if c == '\n' {
            let t = trim_chars(&cur);
            let found = candidate_of(class, &t);
            if found.is_some() {
                best = found;
            }
            cur = Vec::new();
            proof {
                assert(lines(text@.take(i + 1)).drop_last() =~= ls);
                assert(cur@ =~= Seq::<char>::empty());
            }
        } else {
            cur.push(c);
            proof {
                assert(lines(text@.take(i + 1)).drop_last() =~= ls.drop_last());
            }
        }
        i = i + 1;
    }
    let t = trim_chars(&cur);
    let found = candidate_of(class, &t);
    if found.is_some() {
        best = found;
    }
    proof {
        assert(text@.take(text.len() as int) =~= text@);
    }
    match best {
        Some(p) => {
            let trailing = ends_trimmed_with(text, &p);
            Some((p, trailing))
        },
        None => None,
    }
}

/// The prompt in a window of raw bytes; none where the bytes are not UTF-8.
pub fn find_prompt_bytes(data: &[u8], class: DeviceClass) -> (r: Option<(String, bool)>)
    ensures
        string_view(r) == detect(data@, class),
{
    match decode_utf8(data) {
        Some(text) => match find_prompt_text(&text, class) {
            Some((p, trailing)) => Some((string_of_chars(&p), trailing)),
            None => None,
        },
        None => None,
    }
}

// ---------------------------------------------------------------------------
// Laws of detection
// ---------------------------------------------------------------------------

proof fn lemma_terminator_in_range(class: DeviceClass, line: Seq<char>, from: int)
    requires
        0 <= from,
    ensures
        match terminator_from(class, line, from) {
            Some(i) => from <= i < line.len() && is_terminator(class, line[i]) && forall|j: int|
                from <= j < i ==> !is_terminator(class, #[trigger] line[j]),
            None => forall|j: int| from <= j < line.len() ==> !is_terminator(class, #[trigger] line[j]),
        },
    decreases line.len() - from,
{
    if from < line.len() && !is_terminator(class, line[from]) {
        lemma_terminator_in_range(class, line, from + 1);
    }
}

proof fn lemma_byte_len_at_least_len(s: Seq<char>)
    ensures
        byte_len(s) >= s.len(),
    decreases s.len(),
{
    if s.len() > 0 {
        lemma_byte_len_at_least_len(s.drop_last());
    }
}

proof fn lemma_last_candidate_at(class: DeviceClass, ls: Seq<Seq<char>>, k: int, p: Seq<char>)
    requires
        0 <= k < ls.len(),
        candidate(class, trim(ls[k])) == Some(p),
        forall|j: int| k < j < ls.len() ==> candidate(class, trim(#[trigger] ls[j])) is None,
    ensures
        last_candidate(class, ls) == Some(p),
    decreases ls.len(),
{
    if k < ls.len() - 1 {
        assert(candidate(class, trim(ls[ls.len() - 1])) is None);
        let d = ls.drop_last();
        assert forall|j: int| k < j < d.len() implies candidate(class, trim(#[trigger] d[j])) is None by {
            assert(d[j] == ls[j]);
        }
        lemma_last_candidate_at(class, d, k, p);
    }
}

/// Where several lines of a window look like prompts, the bottom-most line
/// that yields a candidate is the one reported.
pub proof fn lemma_bottom_most_candidate_wins(s: Seq<char>, class: DeviceClass, k: int, p: Seq<char>)
    requires
        0 <= k < lines(s).len(),
        candidate(class, trim(lines(s)[k])) == Some(p),
        forall|j: int| k < j < lines(s).len() ==> candidate(class, trim(#[trigger] lines(s)[j])) is None,
    ensures
        detect_text(s, class) == Some((p, p.is_suffix_of(trim_end(s)))),
{
    lemma_last_candidate_at(class, lines(s), k, p);
}

/// IOS rejects a line whose prompt is longer than 82 bytes, or whose body
/// holds a character other than a letter, a digit or one of `. - _ ( )`.
pub proof fn lemma_ios_rejects(line: Seq<char>, i: int)
    requires
        terminator_from(DeviceClass::Ios, trim(line), 0) == Some(i),
        byte_len(trim(line).take(i + 1)) > 82 || exists|j: int|
            0 <= j < i && !ios_body_char(#[trigger] trim(line)[j]),
    ensures
        candidate(DeviceClass::Ios, trim(line)) is None,
{
    let t = trim(line);
    lemma_terminator_in_range(DeviceClass::Ios, t, 0);
    let body = t.take(i + 1).drop_last();
    if byte_len(t.take(i + 1)) <= 82 {
        let j = choose|j: int| 0 <= j < i && !ios_body_char(#[trigger] t[j]);
        assert(body[j] == t[j]);
    }
}

/// ASA rejects a line whose prompt body does not start with a letter or a digit.
pub proof fn lemma_asa_rejects_bad_start(line: Seq<char>)
    requires
        trim(line).len() > 0,
        !is_alnum(trim(line)[0]),
    ensures
        candidate(DeviceClass::Asa, trim(line)) is None,
{
    let t = trim(line);
    lemma_terminator_in_range(DeviceClass::Asa, t, 0);
    if let Some(i) = terminator_from(DeviceClass::Asa, t, 0) {
        let p = t.take(i + 1);
        if i == 0 {
            assert(p.len() == 1 && p.last() == t[0]);
            assert(p.drop_last() =~= Seq::<char>::empty());
            assert(byte_len(p.drop_last()) == 0);
            assert(byte_len(p) == char_width(t[0]));
        } else {
            assert(p.drop_last()[0] == t[0]);
        }
    }
}

/// On Linux and unknown devices a line of more than 100 characters whose first
/// 100 hold no terminator is rejected, whatever else it holds.
pub proof fn lemma_long_line_rejected(class: DeviceClass, line: Seq<char>)
    requires
        class == DeviceClass::Linux || class == DeviceClass::Unknown,
        trim(line).len() > 100,
        forall|j: int| 0 <= j < 100 ==> !is_terminator(class, #[trigger] trim(line)[j]),
    ensures
        candidate(class, trim(line)) is None,
{
    let t = trim(line);
    lemma_terminator_in_range(class, t, 0);
    if let Some(i) = terminator_from(class, t, 0) {
        assert(!is_terminator(class, t[i]) || i >= 100);
        lemma_byte_len_at_least_len(t.take(i + 1));
    }
}

/// A window that is not valid UTF-8 yields no prompt, and no error.
pub proof fn lemma_undecodable_has_no_prompt(b: Seq<u8>, class: DeviceClass)
    requires
        utf8_chars(b) is None,
    ensures
        detect(b, class) is None,
{
}

proof fn lemma_suffix_trans(a: Seq<char>, b: Seq<char>, c: Seq<char>)
    requires
        a.is_suffix_of(b),
        b.is_suffix_of(c),
    ensures
        a.is_suffix_of(c),
{
    assert forall|k: int| 0 <= k < a.len() implies a[k] == c[c.len() - a.len() + k] by {
        assert(a[k] == b[b.len() - a.len() + k]);
        assert(b[b.len() - a.len() + k] == c[c.len() - b.len() + (b.len() - a.len() + k)]);
    }
    assert(a =~= c.subrange(c.len() - a.len(), c.len() as int));
}

proof fn lemma_last_line_is_suffix(s: Seq<char>)
    ensures
        lines(s).len() >= 1,
        lines(s).last().is_suffix_of(s),
    decreases s.len(),
{
    if s.len() > 0 {
        let d = s.drop_last();
        lemma_last_line_is_suffix(d);
        let l = lines(s).last();
        let ld = lines(d).last();
        if s.last() != '\n' {
            assert(l == ld.push(s.last()));
            assert forall|k: int| 0 <= k < ld.len() implies ld[k] == d[d.len() - ld.len() + k] by {
                assert(ld =~= d.subrange(d.len() - ld.len(), d.len() as int));
            }
            assert(l =~= s.subrange(s.len() - l.len(), s.len() as int));
        } else {
            assert(l =~= s.subrange(s.len() as int, s.len() as int));
        }
    }
}

proof fn lemma_trim_start_is_suffix(x: Seq<char>)
    ensures
        trim_start(x).is_suffix_of(x),
    decreases x.len(),
{
    if x.len() > 0 && is_space(x[0]) {
        lemma_trim_start_is_suffix(x.drop_first());
        lemma_suffix_trans(trim_start(x.drop_first()), x.drop_first(), x);
    } else {
        assert(x =~= x.subrange(0, x.len() as int));
    }
}

proof fn lemma_trim_end_keeps_suffix(q: Seq<char>, s: Seq<char>)
    requires
        q.is_suffix_of(s),
        trim_end(q).len() > 0,
    ensures
        trim_end(q).is_suffix_of(trim_end(s)),
    decreases s.len(),
{
    if q.len() == 0 {
        assert(trim_end(q) == q);
    } else {
        assert(q.last() == s.last());
        if is_space(s.last()) {
            assert(q.drop_last() =~= s.drop_last().subrange(
                s.drop_last().len() - q.drop_last().len(),
                s.drop_last().len() as int,
            ));
            lemma_trim_end_keeps_suffix(q.drop_last(), s.drop_last());
        }
    }
}

proof fn lemma_trim_start_of_empty(x: Seq<char>)
    requires
        x.len() == 0,
    ensures
        trim_start(x).len() == 0,
{
}

/// A window whose bottom line, trimmed, is itself an accepted prompt reports
/// that prompt, marked as the last thing the device wrote.
pub proof fn lemma_clean_prompt_line_is_trailing(s: Seq<char>, class: DeviceClass)
    requires
        candidate(class, trim(lines(s).last())) == Some(trim(lines(s).last())),
    ensures
        detect_text(s, class) == Some((trim(lines(s).last()), true)),
{
    lemma_last_line_is_suffix(s);
    let l = lines(s).last();
    let p = trim(l);
    lemma_terminator_in_range(class, p, 0);
    assert(p.len() > 0);
    if trim_end(l).len() == 0 {
        lemma_trim_start_of_empty(trim_end(l));
    }
    lemma_trim_start_is_suffix(trim_end(l));
    lemma_trim_end_keeps_suffix(l, s);
    lemma_suffix_trans(p, trim_end(l), trim_end(s));
}

} // verus!

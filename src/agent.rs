use vstd::prelude::*;
use crate::config::{is_space, trimmed};

verus! {

/// Why a structured worker event could not be read.
#[derive(Debug, Clone, PartialEq, Eq)]
pub enum EventParseError {
    NonUtf8,
    MissingJson { raw: String },
    InvalidJson { raw: String, message: String },
}

/// The bytes of `<FORGE_EVENT`.
pub open spec fn start_marker() -> Seq<u8> {
    seq![60u8, 70, 79, 82, 71, 69, 95, 69, 86, 69, 78, 84]
}

/// The bytes of `</FORGE_EVENT>`.
pub open spec fn end_marker() -> Seq<u8> {
    seq![60u8, 47, 70, 79, 82, 71, 69, 95, 69, 86, 69, 78, 84, 62]
}

pub open spec fn occurs_at(b: Seq<u8>, m: Seq<u8>, i: int) -> bool {
    0 <= i && i + m.len() <= b.len() && b.subrange(i, i + m.len()) == m
}

/// The first position from `i` on where `m` occurs in `b`, or -1.
pub open spec fn first_from(b: Seq<u8>, m: Seq<u8>, i: int) -> int
    decreases b.len() - i,
{
    if i < 0 || i + m.len() > b.len() || i >= b.len() {
        -1
    } else if occurs_at(b, m, i) {
        i
    } else {
        first_from(b, m, i + 1)
    }
}

/// What is kept of a buffer with no start marker: its last `len(start marker)` bytes.
pub open spec fn trimmed_tail(b: Seq<u8>) -> Seq<u8> {
    if b.len() > start_marker().len() {
        b.subrange(b.len() - start_marker().len(), b.len() as int)
    } else {
        b
    }
}

/// The complete frames in `b`, in order, and what stays buffered: text before a start
/// marker is dropped, a frame runs from the start marker through the first end marker
/// after it, and an unfinished frame stays whole.
pub open spec fn scan(b: Seq<u8>) -> (Seq<Seq<u8>>, Seq<u8>)
    decreases b.len(),
{
    let s = first_from(b, start_marker(), 0);
    if s < 0 || s > b.len() {
        (seq![], trimmed_tail(b))
    } else {
        let rest = b.subrange(s, b.len() as int);
        let e = first_from(rest, end_marker(), 0);
        if e < 0 || e + end_marker().len() > rest.len() {
            (seq![], rest)
        } else {
            let stop = e + end_marker().len();
            let after = scan(rest.subrange(stop, rest.len() as int));
            (seq![rest.subrange(0, stop)] + after.0, after.1)
        }
    }
}

proof fn lemma_first_from_range(b: Seq<u8>, m: Seq<u8>, i: int)
    ensures
        first_from(b, m, i) == -1 || (i <= first_from(b, m, i) && occurs_at(b, m, first_from(b, m, i))),
    decreases b.len() - i,
{
    if i < 0 || i + m.len() > b.len() || i >= b.len() {
    } else if occurs_at(b, m, i) {
    } else {
        lemma_first_from_range(b, m, i + 1);
    }
}

fn start_bytes() -> (r: Vec<u8>)
    ensures
        r@ == start_marker(),
{
    let a: [u8; 12] = [60u8, 70, 79, 82, 71, 69, 95, 69, 86, 69, 78, 84];
    let r = a_to_vec(&a);
    assert(r@ =~= start_marker());
    r
}

fn end_bytes() -> (r: Vec<u8>)
    ensures
        r@ == end_marker(),
{
    let a: [u8; 14] = [60u8, 47, 70, 79, 82, 71, 69, 95, 69, 86, 69, 78, 84, 62];
    let mut r: Vec<u8> = Vec::new();
    let mut i: usize = 0;
    while i < 14
        invariant
            0 <= i <= 14,
            r@ == a@.subrange(0, i as int),
        decreases 14 - i,
    {
        r.push(a[i]);
        proof {
            assert(r@ =~= a@.subrange(0, i + 1));
        }
        i += 1;
    }
    assert(r@ =~= end_marker());
    r
}

fn a_to_vec(a: &[u8; 12]) -> (r: Vec<u8>)
    ensures
        r@ == a@,
{
    let mut r: Vec<u8> = Vec::new();
    let mut i: usize = 0;
    while i < 12
        invariant
            0 <= i <= 12,
            r@ == a@.subrange(0, i as int),
        decreases 12 - i,
    {
        r.push(a[i]);
        proof {
            assert(r@ =~= a@.subrange(0, i + 1));
        }
        i += 1;
    }
    assert(r@ =~= a@);
    r
}

/// The bytes `v[from..to]`.
fn slice_of(v: &Vec<u8>, from: usize, to: usize) -> (r: Vec<u8>)
    requires
        from <= to <= v@.len(),
    ensures
        r@ == v@.subrange(from as int, to as int),
{
    let mut r: Vec<u8> = Vec::new();
    let mut i: usize = from;
    while i < to
        invariant
            from <= i <= to <= v@.len(),
            r@ == v@.subrange(from as int, i as int),
        decreases to - i,
    {
        r.push(v[i]);
        proof {
            assert(r@ =~= v@.subrange(from as int, i + 1));
        }
        i += 1;
    }
    r
}

/// Gathers structured events framed in a worker's output, across chunk boundaries.
#[derive(Debug, Clone)]
pub struct PtyEventParser {
    pub buffer: Vec<u8>,
}

pub open spec fn frames_view(v: Seq<Vec<u8>>) -> Seq<Seq<u8>> {
    v.map_values(|f: Vec<u8>| f@)
}

impl PtyEventParser {
    pub fn new() -> (r: PtyEventParser)
        ensures
            r.buffer@.len() == 0,
    {
        PtyEventParser { buffer: Vec::new() }
    }

    /// The first place `marker` occurs in `buffer`.
    pub fn find_tag(buffer: &Vec<u8>, marker: &Vec<u8>) -> (r: Option<usize>)
        requires
            marker@.len() > 0,
        ensures
            match r {
                Some(i) => first_from(buffer@, marker@, 0) == i,
                None => first_from(buffer@, marker@, 0) == -1,
            },
    {
        let n = buffer.len();
        let m = marker.len();
        if m > n {
            return None;
        }
        let mut i: usize = 0;
        while i <= n - m
            invariant
                n == buffer@.len(),
                m == marker@.len(),
                0 < m <= n,
                0 <= i <= n - m + 1,
                first_from(buffer@, marker@, 0) == first_from(buffer@, marker@, i as int),
            decreases n - i,
        {
            let mut j: usize = 0;
            let mut same = true;
            while j < m
                invariant
                    n == buffer@.len(),
                    m == marker@.len(),
                    i + m <= n,
                    0 <= j <= m,
                    same == (forall|k: int| 0 <= k < j ==> buffer@[i + k] == marker@[k]),
                decreases m - j,
            {
                if buffer[i + j] != marker[j] {
                    same = false;
                }
                j += 1;
            }
            if same {
                assert(buffer@.subrange(i as int, (i + m) as int) =~= marker@);
                return Some(i);
            }
            proof {
                let k = choose|k: int| 0 <= k < m && buffer@[i + k] != marker@[k];
                assert(buffer@.subrange(i as int, (i + m) as int)[k] != marker@[k]);
            }
            i += 1;
        }
        None
    }

    /// With no start marker buffered, keeps only the last `len(start marker)` bytes.
    pub fn trim_buffer(&mut self)
        ensures
            final(self).buffer@ == trimmed_tail(old(self).buffer@),
    {
        if self.buffer.len() > 12 {
            let from = self.buffer.len() - 12;
            self.buffer = slice_of(&self.buffer, from, self.buffer.len());
        }
    }

    /// Buffers `chunk` and takes out every complete frame, in order.
    pub fn feed(&mut self, chunk: &Vec<u8>) -> (r: Vec<Vec<u8>>)
        ensures
            frames_view(r@) == scan(old(self).buffer@ + chunk@).0,
            final(self).buffer@ == scan(old(self).buffer@ + chunk@).1,
    {
        let mut i: usize = 0;
        let ghost start = self.buffer@;
        while i < chunk.len()
            invariant
                0 <= i <= chunk@.len(),
                self.buffer@ == start + chunk@.subrange(0, i as int),
            decreases chunk@.len() - i,
        {
            self.buffer.push(chunk[i]);
            proof {
                assert(self.buffer@ =~= start + chunk@.subrange(0, i + 1));
            }
            i += 1;
        }
        assert(chunk@.subrange(0, chunk@.len() as int) =~= chunk@);
        let ghost all = self.buffer@;
        let st = start_bytes();
        let en = end_bytes();
        let mut frames: Vec<Vec<u8>> = Vec::new();
        assert(frames_view(frames@) + scan(self.buffer@).0 =~= scan(all).0);
        loop
            invariant_except_break
                frames_view(frames@) + scan(self.buffer@).0 == scan(all).0,
                scan(self.buffer@).1 == scan(all).1,
            invariant
                st@ == start_marker(),
                en@ == end_marker(),
            ensures
                frames_view(frames@) == scan(all).0,
                self.buffer@ == scan(all).1,
            decreases self.buffer@.len(),
        {
            let ghost b = self.buffer@;
            match Self::find_tag(&self.buffer, &st) {
                None => {
                    self.trim_buffer();
                    assert(frames_view(frames@) =~= frames_view(frames@) + Seq::<Seq<u8>>::empty());
                    break;
                },
                Some(s) => {
                    proof {
                        lemma_first_from_range(b, start_marker(), 0);
                    }
                    self.buffer = slice_of(&self.buffer, s, self.buffer.len());
                    let ghost rest = self.buffer@;
                    match Self::find_tag(&self.buffer, &en) {
                        None => {
                            assert(frames_view(frames@) =~= frames_view(frames@) + Seq::<Seq<u8>>::empty());
                            break;
                        },
                        Some(e) => {
                            proof {
                                lemma_first_from_range(rest, end_marker(), 0);
                            }
                            let stop = e + 14;
                            let frame = slice_of(&self.buffer, 0, stop);
                            self.buffer = slice_of(&self.buffer, stop, self.buffer.len());
                            let ghost fv = frames_view(frames@);
                            frames.push(frame);
                            proof {
                                assert(frames_view(frames@) =~= fv.push(rest.subrange(0, stop as int)));
                                let after = scan(self.buffer@);
                                assert(scan(b).0 =~= seq![rest.subrange(0, stop as int)] + after.0);
                                assert(frames_view(frames@) + after.0 =~= fv + (seq![rest.subrange(0, stop as int)] + after.0));
                            }
                        },
                    }
                },
            }
        }
        frames
    }
}

// ----- reading one frame -----

/// The end of the word starting at `i`: the first whitespace at or after `i`, or the end.
pub open spec fn word_end(s: Seq<char>, i: int) -> int
    decreases s.len() - i,
{
    if i >= s.len() || i < 0 || is_space(s[i]) {
        if i < 0 {
            0
        } else {
            i
        }
    } else {
        word_end(s, i + 1)
    }
}

/// The whitespace-separated words of `s` from position `i` on.
pub open spec fn words_from(s: Seq<char>, i: int) -> Seq<Seq<char>>
    decreases s.len() - i,
{
    if i < 0 || i >= s.len() {
        seq![]
    } else if is_space(s[i]) {
        words_from(s, i + 1)
    } else {
        let e = word_end(s, i);
        if e <= i || e > s.len() {
            seq![]
        } else {
            seq![s.subrange(i, e)] + words_from(s, e)
        }
    }
}

/// What `name="X"` names: `X`.
pub open spec fn name_of(w: Seq<char>) -> Option<Seq<char>> {
    if w.len() >= 7 && w.subrange(0, 6) == "name=\""@ && w.last() == '"' {
        Some(w.subrange(6, w.len() - 1))
    } else {
        None
    }
}

/// The first word that names something.
pub open spec fn first_name(ws: Seq<Seq<char>>) -> Option<Seq<char>>
    decreases ws.len(),
{
    if ws.len() == 0 {
        None
    } else {
        match name_of(ws[0]) {
            Some(n) => Some(n),
            None => first_name(ws.drop_first()),
        }
    }
}

/// The name an opening tag gives: the first `name="X"` among its words after the first.
pub open spec fn tag_name(tag: Seq<char>) -> Option<Seq<char>> {
    let ws = words_from(tag, 0);
    if ws.len() == 0 {
        None
    } else {
        first_name(ws.drop_first())
    }
}

fn name_in(c: &Vec<char>, lo: usize, hi: usize) -> (r: Option<(usize, usize)>)
    requires
        lo <= hi <= c@.len(),
    ensures
        match (r, name_of(c@.subrange(lo as int, hi as int))) {
            (Some((a, b)), Some(n)) => a <= b <= c@.len() && c@.subrange(a as int, b as int) == n,
            (None, None) => true,
            _ => false,
        },
{
    let ghost w = c@.subrange(lo as int, hi as int);
    proof {
        reveal_strlit("name=\"");
    }
    if hi - lo < 7 {
        return None;
    }
    let ok = c[lo] == 'n' && c[lo + 1] == 'a' && c[lo + 2] == 'm' && c[lo + 3] == 'e' && c[lo + 4] == '='
        && c[lo + 5] == '"' && c[hi - 1] == '"';
    proof {
        let p = w.subrange(0, 6);
        if p == "name=\""@ {
            assert(p[0] == 'n' && p[1] == 'a' && p[2] == 'm' && p[3] == 'e' && p[4] == '=' && p[5] == '"');
        }
        if ok {
            assert(p =~= "name=\""@);
        }
    }
    if ok {
        assert(c@.subrange(lo + 6, hi - 1) =~= w.subrange(6, w.len() - 1));
        Some((lo + 6, hi - 1))
    } else {
        None
    }
}

proof fn lemma_words_skip(s: Seq<char>, i: int, j: int)
    requires
        0 <= i <= j <= s.len(),
        forall|k: int| i <= k < j ==> is_space(#[trigger] s[k]),
    ensures
        words_from(s, i) == words_from(s, j),
    decreases j - i,
{
    if i < j {
        lemma_words_skip(s, i + 1, j);
    }
}

/// The next word of `c` at or after `from`.
pub fn next_word(c: &Vec<char>, from: usize) -> (r: Option<(usize, usize)>)
    requires
        from <= c@.len(),
    ensures
        match r {
            Some((a, b)) => from <= a < b <= c@.len() && words_from(c@, from as int) == seq![
                c@.subrange(a as int, b as int),
            ] + words_from(c@, b as int),
            None => words_from(c@, from as int).len() == 0,
        },
{
    let n = c.len();
    let mut i = from;
    while i < n && (c[i] == ' ' || c[i] == '\t' || c[i] == '\n' || c[i] == '\r')
        invariant
            n == c@.len(),
            from <= i <= n,
            forall|k: int| from <= k < i ==> is_space(#[trigger] c@[k]),
        decreases n - i,
    {
        i += 1;
    }
    proof {
        lemma_words_skip(c@, from as int, i as int);
    }
    if i == n {
        return None;
    }
    let mut e = i;
    while e < n && !(c[e] == ' ' || c[e] == '\t' || c[e] == '\n' || c[e] == '\r')
        invariant
            n == c@.len(),
            i <= e <= n,
            word_end(c@, i as int) == word_end(c@, e as int),
        decreases n - e,
    {
        e += 1;
    }
    assert(word_end(c@, e as int) == e);
    Some((i, e))
}

/// The name given in the opening tag `c[0..n]`.
fn name_from_tag(c: &Vec<char>, n: usize) -> (r: Option<(usize, usize)>)
    requires
        n <= c@.len(),
    ensures
        match (r, tag_name(c@.subrange(0, n as int))) {
            (Some((a, b)), Some(x)) => a <= b <= c@.len() && c@.subrange(a as int, b as int) == x,
            (None, None) => true,
            _ => false,
        },
{
    let ghost t = c@.subrange(0, n as int);
    let mut i: usize = 0;
    let mut seen: usize = 0;
    while i < n
        invariant
            n <= c@.len(),
            t == c@.subrange(0, n as int),
            0 <= i <= n,
            seen <= 1,
            tag_name(t) == if seen == 0 {
                let ws = words_from(t, i as int);
                if ws.len() == 0 {
                    None
                } else {
                    first_name(ws.drop_first())
                }
            } else {
                first_name(words_from(t, i as int))
            },
        decreases n - i,
    {
        if c[i] == ' ' || c[i] == '\t' || c[i] == '\n' || c[i] == '\r' {
            assert(is_space(t[i as int]));
            proof {
                lemma_words_skip(t, i as int, i + 1);
            }
            i += 1;
        } else {
            let mut e = i;
            while e < n && !(c[e] == ' ' || c[e] == '\t' || c[e] == '\n' || c[e] == '\r')
                invariant
                    n <= c@.len(),
                    t == c@.subrange(0, n as int),
                    i <= e <= n,
                    word_end(t, i as int) == word_end(t, e as int),
                decreases n - e,
            {
                e += 1;
            }
            proof {
                assert(word_end(t, e as int) == e);
                assert(t.subrange(i as int, e as int) =~= c@.subrange(i as int, e as int));
                let ws = words_from(t, i as int);
                assert(ws == seq![t.subrange(i as int, e as int)] + words_from(t, e as int));
                assert(ws.drop_first() =~= words_from(t, e as int));
                assert(ws[0] == t.subrange(i as int, e as int));
            }
            if seen == 0 {
                seen = 1;
            } else {
                match name_in(c, i, e) {
                    Some(found) => {
                        return Some(found);
                    },
                    None => {},
                }
            }
            i = e;
        }
    }
    None
}

impl PtyEventParser {
    /// The name an opening tag gives, as `tag_name` reads it.
    pub fn extract_name(tag: &str) -> (r: Option<String>)
        ensures
            match (r, tag_name(tag@)) {
                (Some(a), Some(b)) => a@ == b,
                (None, None) => true,
                _ => false,
            },
    {
        let c = chars_of_str(tag);
        assert(c@.subrange(0, c@.len() as int) =~= tag@);
        match name_from_tag(&c, c.len()) {
            Some((x, y)) => Some(string_of(&c, x, y)),
            None => None,
        }
    }
}

/// The bytes of the closing marker as characters.
pub open spec fn end_chars() -> Seq<char> {
    "</FORGE_EVENT>"@
}

/// What a frame holds: its opening tag runs to the first `>`; it must end with the closing
/// marker; between them, trimmed, is the payload text, which must not be empty.
pub open spec fn frame_parts(raw: Seq<char>) -> Option<(Option<Seq<char>>, Seq<char>)> {
    if exists|k: int| 0 <= k < raw.len() && raw[k] == '>' && forall|j: int| 0 <= j < k ==> raw[j] != '>' {
        let k = choose|k: int| 0 <= k < raw.len() && raw[k] == '>' && forall|j: int| 0 <= j < k ==> raw[j] != '>';
        let stop = raw.len() - end_chars().len();
        if raw.len() >= end_chars().len() && raw.subrange(stop, raw.len() as int) == end_chars() && k + 1
            <= stop && trimmed(raw.subrange(k + 1, stop)).len() > 0 {
            Some((tag_name(raw.subrange(0, k)), trimmed(raw.subrange(k + 1, stop))))
        } else {
            None
        }
    } else {
        None
    }
}

/// Splits a frame into the name its tag gives and its payload text (JSON, read by the
/// caller). `MissingJson` when there is no tag end, no closing marker or no payload.
pub fn split_frame(raw: &str) -> (r: Result<(Option<String>, String), EventParseError>)
    ensures
        match (r, frame_parts(raw@)) {
            (Ok((name, payload)), Some((n, p))) => payload@ == p && match (name, n) {
                (Some(a), Some(b)) => a@ == b,
                (None, None) => true,
                _ => false,
            },
            (Err(EventParseError::MissingJson { raw: text }), None) => text@ == raw@,
            _ => false,
        },
{
    proof {
        reveal_strlit("</FORGE_EVENT>");
    }
    let c = chars_of_str(raw);
    let n = c.len();
    let mut k: usize = 0;
    while k < n && c[k] != '>'
        invariant
            n == c@.len(),
            c@ == raw@,
            0 <= k <= n,
            forall|j: int| 0 <= j < k ==> c@[j] != '>',
        decreases n - k,
    {
        k += 1;
    }
    let missing = EventParseError::MissingJson { raw: raw.to_string() };
    if k == n {
        return Err(missing);
    }
    proof {
        let kk = choose|kk: int| 0 <= kk < raw@.len() && raw@[kk] == '>' && forall|j: int| 0 <= j < kk ==> raw@[j] != '>';
        if kk < k {
            assert(c@[kk] != '>');
        } else if kk > k {
            assert(raw@[k as int] == '>');
        }
        assert(kk == k);
    }
    if n < 14 {
        return Err(missing);
    }
    let stop = n - 14;
    let tail: [char; 14] = ['<', '/', 'F', 'O', 'R', 'G', 'E', '_', 'E', 'V', 'E', 'N', 'T', '>'];
    let mut j: usize = 0;
    let mut ends = true;
    while j < 14
        invariant
            n == c@.len(),
            stop == n - 14,
            0 <= j <= 14,
            tail@ =~= end_chars(),
            ends == (forall|x: int| 0 <= x < j ==> c@[stop + x] == tail@[x]),
        decreases 14 - j,
    {
        if c[stop + j] != tail[j] {
            ends = false;
        }
        j += 1;
    }
    proof {
        if ends {
            assert(c@.subrange(stop as int, n as int) =~= end_chars());
        } else {
            let x = choose|x: int| 0 <= x < 14 && c@[stop + x] != tail@[x];
            assert(c@.subrange(stop as int, n as int)[x] != end_chars()[x]);
        }
    }
    if !ends || k + 1 > stop {
        return Err(missing);
    }
    let (a, b) = crate::config::trim_bounds_of(&c, k + 1, stop);
    if a == b {
        return Err(missing);
    }
    let payload = string_of(&c, a, b);
    let name = match name_from_tag(&c, k) {
        Some((x, y)) => Some(string_of(&c, x, y)),
        None => None,
    };
    Ok((name, payload))
}

pub fn chars_of_str(s: &str) -> (r: Vec<char>)
    ensures
        r@ == s@,
{
    let n = s.unicode_len();
    let mut r: Vec<char> = Vec::new();
    let mut i: usize = 0;
    while i < n
        invariant
            n == s@.len(),
            0 <= i <= n,
            r@ == s@.subrange(0, i as int),
        decreases n - i,
    {
        r.push(s.get_char(i));
        proof {
            assert(r@ =~= s@.subrange(0, i + 1));
        }
        i += 1;
    }
    assert(s@.subrange(0, n as int) =~= s@);
    r
}

/// The characters `c[a..b]` as a string.
fn string_of(c: &Vec<char>, a: usize, b: usize) -> (r: String)
    requires
        a <= b <= c@.len(),
    ensures
        r@ == c@.subrange(a as int, b as int),
{
    let mut r = String::new();
    let mut i = a;
    while i < b
        invariant
            a <= i <= b <= c@.len(),
            r@ == c@.subrange(a as int, i as int),
        decreases b - i,
    {
        let one = char_text(c[i]);
        r = r.concat(one.as_str());
        proof {
            assert(r@ =~= c@.subrange(a as int, i + 1));
        }
        i += 1;
    }
    r
}

/// Relies on `char::to_string`: the one-character string.
#[verifier::external_body]
fn char_text(ch: char) -> (r: String)
    ensures
        r@ == seq![ch],
{
    ch.to_string()
}

} // verus!

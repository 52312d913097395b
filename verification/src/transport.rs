//! The streaming wire-protocol client: request framing, the incremental
//! line-oriented response parser, and the session state machine that turns
//! raw response bytes into the events the UI consumes.

use crate::chat::{Event, EventView, Role};
use crate::renderer::push_char;
use vstd::prelude::*;
use vstd::slice::slice_subrange;
use vstd::string::StringExecFns;
use vstd::utf8::{decode_utf8, valid_utf8};

verus! {

/// The index of the first position at or after `from` where `b0` is
/// immediately followed by `b1`; `s.len()` when there is none.
pub open spec fn find_two(s: Seq<u8>, b0: u8, b1: u8, from: nat) -> nat
    decreases s.len() - from,
{
    if from + 1 >= s.len() {
        s.len()
    } else if s[from as int] == b0 && s[from as int + 1] == b1 {
        from
    } else {
        find_two(s, b0, b1, from + 1)
    }
}

/// What `find_two` returns: in range, a match when it is one, and nothing
/// earlier matches.
pub proof fn lemma_find_two(s: Seq<u8>, b0: u8, b1: u8, from: nat)
    requires
        from <= s.len(),
    ensures
        from <= find_two(s, b0, b1, from) <= s.len(),
        find_two(s, b0, b1, from) < s.len() ==> find_two(s, b0, b1, from) + 1 < s.len() && s[
            find_two(s, b0, b1, from) as int
        ] == b0 && s[find_two(s, b0, b1, from) as int + 1] == b1,
        forall|j: int| #![trigger s[j]]
            from <= j < find_two(s, b0, b1, from) && j + 1 < s.len() ==> !(s[j] == b0 && s[j + 1]
                == b1),
    decreases s.len() - from,
{
    if from + 1 >= s.len() {
    } else if s[from as int] == b0 && s[from as int + 1] == b1 {
    } else {
        lemma_find_two(s, b0, b1, from + 1);
    }
}

/// Any index with the `find_two` properties is `find_two`'s result.
pub proof fn lemma_find_two_unique(s: Seq<u8>, b0: u8, b1: u8, from: nat, i: nat)
    requires
        from <= i <= s.len(),
        i < s.len() ==> i + 1 < s.len() && s[i as int] == b0 && s[i as int + 1] == b1,
        forall|j: int| #![trigger s[j]] from <= j < i && j + 1 < s.len() ==> !(s[j] == b0 && s[j + 1] == b1),
    ensures
        find_two(s, b0, b1, from) == i,
    decreases i - from,
{
    if from < i {
        lemma_find_two_unique(s, b0, b1, from + 1, i);
    }
}

/// A found separator stays where it is when more bytes arrive: scanning the
/// extended sequence finds the same position.
pub proof fn lemma_find_two_stable(s: Seq<u8>, extra: Seq<u8>, b0: u8, b1: u8, from: nat)
    requires
        from <= s.len(),
        find_two(s, b0, b1, from) < s.len(),
    ensures
        find_two(s + extra, b0, b1, from) == find_two(s, b0, b1, from),
{
    let i = find_two(s, b0, b1, from);
    lemma_find_two(s, b0, b1, from);
    assert forall|j: int| #![trigger (s + extra)[j]]
        from <= j < i && j + 1 < (s + extra).len() implies !((s + extra)[j] == b0
        && (s + extra)[j + 1] == b1) by {
        assert(j + 1 < s.len());
        assert((s + extra)[j] == s[j]);
        assert((s + extra)[j + 1] == s[j + 1]);
    }
    assert((s + extra)[i as int] == s[i as int]);
    assert((s + extra)[i as int + 1] == s[i as int + 1]);
    lemma_find_two_unique(s + extra, b0, b1, from, i);
}

/// Scans for `b0` immediately followed by `b1`, starting at `from`.
pub fn exec_find_two(s: &[u8], b0: u8, b1: u8, from: usize) -> (i: usize)
    requires
        from <= s@.len(),
    ensures
        i == find_two(s@, b0, b1, from as nat),
{
    let n = s.len();
    let mut i = from;
    while n - i > 1 && !(s[i] == b0 && s[i + 1] == b1)
        invariant
            from <= i <= n,
            n == s@.len(),
            forall|j: int| #![trigger s@[j]]
                from <= j < i && j + 1 < n ==> !(s@[j] == b0 && s@[j + 1] == b1),
        decreases n - i,
    {
        i = i + 1;
    }
    if n - i > 1 {
        proof {
            lemma_find_two_unique(s@, b0, b1, from as nat, i as nat);
        }
        i
    } else {
        proof {
            lemma_find_two_unique(s@, b0, b1, from as nat, s@.len());
        }
        n
    }
}

/// An ASCII whitespace byte: space, tab, newline, vertical tab, form feed
/// or carriage return.
pub open spec fn is_ws(b: u8) -> bool {
    b == 32 || b == 9 || b == 10 || b == 11 || b == 12 || b == 13
}

/// `s` with ASCII whitespace removed from the front.
pub open spec fn trim_start_bytes(s: Seq<u8>) -> Seq<u8>
    decreases s.len(),
{
    if s.len() > 0 && is_ws(s[0]) {
        trim_start_bytes(s.skip(1))
    } else {
        s
    }
}

/// `s` with ASCII whitespace removed from the back.
pub open spec fn trim_end_bytes(s: Seq<u8>) -> Seq<u8>
    decreases s.len(),
{
    if s.len() > 0 && is_ws(s.last()) {
        trim_end_bytes(s.drop_last())
    } else {
        s
    }
}

/// `s` with ASCII whitespace removed from both ends.
pub open spec fn trim_bytes(s: Seq<u8>) -> Seq<u8> {
    trim_end_bytes(trim_start_bytes(s))
}

fn exec_is_ws(b: u8) -> (ws: bool)
    ensures
        ws == is_ws(b),
{
    b == 32 || b == 9 || b == 10 || b == 11 || b == 12 || b == 13
}

/// Copies `s[from..to]` with ASCII whitespace trimmed from both ends.
pub fn trim_range(s: &[u8], from: usize, to: usize) -> (trimmed: Vec<u8>)
    requires
        from <= to <= s@.len(),
    ensures
        trimmed@ == trim_bytes(s@.subrange(from as int, to as int)),
{
    let ghost whole = s@.subrange(from as int, to as int);
    let mut lo = from;
    while lo < to && exec_is_ws(s[lo])
        invariant
            from <= lo <= to <= s@.len(),
            whole == s@.subrange(from as int, to as int),
            trim_start_bytes(whole) == trim_start_bytes(
                s@.subrange(lo as int, to as int),
            ),
        decreases to - lo,
    {
        proof {
            assert(s@.subrange(lo as int, to as int)[0] == s@[lo as int]);
            assert(s@.subrange(lo as int, to as int).skip(1) =~= s@.subrange(
                lo as int + 1,
                to as int,
            ));
        }
        lo = lo + 1;
    }
    proof {
        if lo < to {
            assert(s@.subrange(lo as int, to as int)[0] == s@[lo as int]);
        }
        assert(trim_start_bytes(whole) == s@.subrange(lo as int, to as int));
    }
    let mut hi = to;
    while hi > lo && exec_is_ws(s[hi - 1])
        invariant
            from <= lo <= hi <= to <= s@.len(),
            trim_start_bytes(whole) == s@.subrange(lo as int, to as int),
            trim_end_bytes(s@.subrange(lo as int, to as int)) == trim_end_bytes(
                s@.subrange(lo as int, hi as int),
            ),
        decreases hi,
    {
        proof {
            let cur = s@.subrange(lo as int, hi as int);
            assert(cur.last() == s@[hi - 1]);
            assert(cur.drop_last() =~= s@.subrange(lo as int, hi as int - 1));
        }
        hi = hi - 1;
    }
    proof {
        let cur = s@.subrange(lo as int, hi as int);
        if hi > lo {
            assert(cur.last() == s@[hi - 1]);
        }
        assert(trim_bytes(whole) == s@.subrange(lo as int, hi as int));
    }
    let piece = slice_subrange(s, lo, hi);
    let mut trimmed: Vec<u8> = Vec::new();
    let mut k: usize = 0;
    while k < piece.len()
        invariant
            k <= piece@.len(),
            trimmed@ == piece@.take(k as int),
        decreases piece@.len() - k,
    {
        trimmed.push(piece[k]);
        proof {
            assert(piece@.take(k + 1) =~= piece@.take(k as int).push(piece@[k as int]));
        }
        k = k + 1;
    }
    proof {
        assert(piece@.take(piece@.len() as int) =~= piece@);
    }
    trimmed
}

/// What the header section has collected, as sequences: the plain
/// `name: value` pairs in arrival order, and the three tokens of the status
/// line once one has been seen.
pub struct HeadersView {
    pub entries: Seq<(Seq<u8>, Seq<u8>)>,
    pub protocol: Option<Seq<u8>>,
    pub status: Option<Seq<u8>>,
    pub status_msg: Option<Seq<u8>>,
}

/// The header mapping a streaming session collects while parsing the status
/// line and headers of one response.
pub struct Headers {
    pub entries: Vec<(Vec<u8>, Vec<u8>)>,
    pub protocol: Option<Vec<u8>>,
    pub status: Option<Vec<u8>>,
    pub status_msg: Option<Vec<u8>>,
}

/// An optional byte vector, viewed as an optional byte sequence.
pub open spec fn opt_bytes_view(opt: Option<Vec<u8>>) -> Option<Seq<u8>> {
    match opt {
        Some(v) => Some(v@),
        None => None,
    }
}

impl View for Headers {
    type V = HeadersView;

    open spec fn view(&self) -> HeadersView {
        HeadersView {
            entries: self.entries@.map_values(|e: (Vec<u8>, Vec<u8>)| (e.0@, e.1@)),
            protocol: opt_bytes_view(self.protocol),
            status: opt_bytes_view(self.status),
            status_msg: opt_bytes_view(self.status_msg),
        }
    }
}

pub open spec fn empty_headers() -> HeadersView {
    HeadersView {
        entries: Seq::empty(),
        protocol: None,
        status: None,
        status_msg: None,
    }
}

/// What one header-section line does to the collected headers: a line with
/// `": "` appends a `name: value` pair; any other line is the status line,
/// cut at its first two spaces into protocol, status code and status
/// message (a token that is not there leaves its field empty).
pub open spec fn spec_parse_header_step(h: HeadersView, line: Seq<u8>) -> HeadersView {
    let sep = find_two(line, 58, 32, 0);
    if sep < line.len() {
        HeadersView {
            entries: h.entries.push((line.take(sep as int), line.skip(sep as int + 2))),
            ..h
        }
    } else {
        let sp1 = find_one(line, 32, 0);
        if sp1 >= line.len() {
            HeadersView { protocol: Some(line), status: None, status_msg: None, ..h }
        } else {
            let rest = line.skip(sp1 as int + 1);
            let sp2 = find_one(rest, 32, 0);
            if sp2 >= rest.len() {
                HeadersView {
                    protocol: Some(line.take(sp1 as int)),
                    status: Some(rest),
                    status_msg: None,
                    ..h
                }
            } else {
                HeadersView {
                    protocol: Some(line.take(sp1 as int)),
                    status: Some(rest.take(sp2 as int)),
                    status_msg: Some(rest.skip(sp2 as int + 1)),
                    ..h
                }
            }
        }
    }
}

/// The index of the first `b` at or after `from`; `s.len()` when none.
pub open spec fn find_one(s: Seq<u8>, b: u8, from: nat) -> nat
    decreases s.len() - from,
{
    if from >= s.len() {
        s.len()
    } else if s[from as int] == b {
        from
    } else {
        find_one(s, b, from + 1)
    }
}

proof fn lemma_find_one_unique(s: Seq<u8>, b: u8, from: nat, i: nat)
    requires
        from <= i <= s.len(),
        i < s.len() ==> s[i as int] == b,
        forall|j: int| from <= j < i ==> s[j] != b,
    ensures
        find_one(s, b, from) == i,
    decreases i - from,
{
    if from < i {
        lemma_find_one_unique(s, b, from + 1, i);
    }
}

/// Scans for the first occurrence of `b` at or after `from`.
fn exec_find_one(s: &[u8], b: u8, from: usize) -> (i: usize)
    requires
        from <= s@.len(),
    ensures
        i == find_one(s@, b, from as nat),
{
    let n = s.len();
    let mut i = from;
    while i < n && s[i] != b
        invariant
            from <= i <= n,
            n == s@.len(),
            forall|j: int| from <= j < i ==> s@[j] != b,
        decreases n - i,
    {
        i = i + 1;
    }
    proof {
        lemma_find_one_unique(s@, b, from as nat, i as nat);
    }
    i
}

fn bytes_of_range(s: &[u8], from: usize, to: usize) -> (out: Vec<u8>)
    requires
        from <= to <= s@.len(),
    ensures
        out@ == s@.subrange(from as int, to as int),
{
    let piece = slice_subrange(s, from, to);
    let mut out: Vec<u8> = Vec::new();
    let mut k: usize = 0;
    while k < piece.len()
        invariant
            k <= piece@.len(),
            out@ == piece@.take(k as int),
        decreases piece@.len() - k,
    {
        out.push(piece[k]);
        proof {
            assert(piece@.take(k + 1) =~= piece@.take(k as int).push(piece@[k as int]));
        }
        k = k + 1;
    }
    proof {
        assert(piece@.take(piece@.len() as int) =~= piece@);
    }
    out
}

/// Consumes one header-section line: a `name: value` header joins the
/// mapping, and any other line is tokenized as the status line into
/// protocol, status code and status message.
pub fn on_parse_header(data: &[u8], headers: &mut Headers)
    ensures
        final(headers)@ == spec_parse_header_step(old(headers)@, data@),
{
    let n = data.len();
    let sep = exec_find_two(data, 58, 32, 0);
    proof {
        lemma_find_two(data@, 58, 32, 0);
    }
    if sep < n {
        let name = bytes_of_range(data, 0, sep);
        let value = bytes_of_range(data, sep + 2, n);
        let ghost entries_prev = headers@.entries;
        headers.entries.push((name, value));
        proof {
            assert(name@ =~= data@.take(sep as int));
            assert(value@ =~= data@.skip(sep as int + 2));
            assert(headers@.entries =~= entries_prev.push((data@.take(sep as int), data@.skip(
                sep as int + 2,
            ))));
            assert(headers@ =~= spec_parse_header_step(old(headers)@, data@));
        }
    } else {
        let sp1 = exec_find_one(data, 32, 0);
        if sp1 >= n {
            headers.protocol = Some(bytes_of_range(data, 0, n));
            headers.status = None;
            headers.status_msg = None;
            proof {
                assert(data@.subrange(0, n as int) =~= data@);
                assert(headers@ =~= spec_parse_header_step(old(headers)@, data@));
            }
        } else {
            let rest = slice_subrange(data, sp1 + 1, n);
            let ghost rest_view = data@.skip(sp1 as int + 1);
            proof {
                assert(rest@ =~= rest_view);
            }
            let sp2 = exec_find_one(rest, 32, 0);
            if sp2 >= rest.len() {
                headers.protocol = Some(bytes_of_range(data, 0, sp1));
                headers.status = Some(bytes_of_range(rest, 0, rest.len()));
                headers.status_msg = None;
                proof {
                    assert(data@.subrange(0, sp1 as int) =~= data@.take(sp1 as int));
                    assert(rest_view.subrange(0, rest_view.len() as int) =~= rest_view);
                    assert(headers@ =~= spec_parse_header_step(old(headers)@, data@));
                }
            } else {
                headers.protocol = Some(bytes_of_range(data, 0, sp1));
                headers.status = Some(bytes_of_range(rest, 0, sp2));
                headers.status_msg = Some(bytes_of_range(rest, sp2 + 1, rest.len()));
                proof {
                    assert(data@.subrange(0, sp1 as int) =~= data@.take(sp1 as int));
                    assert(rest_view.subrange(0, sp2 as int) =~= rest_view.take(sp2 as int));
                    assert(rest_view.subrange(sp2 as int + 1, rest_view.len() as int)
                        =~= rest_view.skip(sp2 as int + 1));
                    assert(headers@ =~= spec_parse_header_step(old(headers)@, data@));
                }
            }
        }
    }
}

/// The `delta.content` string that one structured streaming payload carries,
/// when it carries one: what `serde_json` extracts from the payload bytes.
pub uninterp spec fn spec_delta_of(payload: Seq<u8>) -> Option<Seq<char>>;

/// Relies on serde_json::from_slice and Value's get/as_str: returns the
/// `choices[0].delta.content` string of one JSON payload when the payload
/// parses and that field is a string, and `None` otherwise. The result
/// depends on the payload bytes alone.
#[verifier::external_body]
fn json_delta_content(payload: &[u8]) -> (delta: Option<String>)
    ensures
        match delta {
            Some(s) => spec_delta_of(payload@) == Some(s@),
            None => spec_delta_of(payload@) is None,
        },
{
    let value: serde_json::Value = match serde_json::from_slice(payload) {
        Ok(v) => v,
        Err(_) => return None,
    };
    let content = value.get("choices")?.get(0)?.get("delta")?.get("content")?.as_str()?;
    Some(content.to_string())
}

/// The human-readable message a structured error body carries, when it
/// carries one: what `serde_json` extracts from the body bytes.
pub uninterp spec fn spec_error_message_of(body: Seq<u8>) -> Option<Seq<char>>;

/// Relies on serde_json::from_slice and Value's get/as_str: returns the
/// `error.message` string of a structured error body when the body parses
/// and that field is a string, and `None` otherwise. The result depends on
/// the body bytes alone.
#[verifier::external_body]
fn json_error_message(body: &[u8]) -> (message: Option<String>)
    ensures
        match message {
            Some(s) => spec_error_message_of(body@) == Some(s@),
            None => spec_error_message_of(body@) is None,
        },
{
    let value: serde_json::Value = match serde_json::from_slice(body) {
        Ok(v) => v,
        Err(_) => return None,
    };
    let message = value.get("error")?.get("message")?.as_str()?;
    Some(message.to_string())
}

/// Relies on str::from_utf8: succeeds exactly on valid UTF-8, and then
/// decodes to the characters vstd's UTF-8 model gives for these bytes.
#[verifier::external_body]
fn utf8_to_str(bytes: &[u8]) -> (text: Option<&str>)
    ensures
        match text {
            Some(s) => valid_utf8(bytes@) && s@ == decode_utf8(bytes@),
            None => !valid_utf8(bytes@),
        },
{
    std::str::from_utf8(bytes).ok()
}

/// Whether a body line begins with the expected event-prefix token "data".
pub open spec fn starts_with_data(line: Seq<u8>) -> bool {
    line.len() >= 4 && line[0] == 100 && line[1] == 97 && line[2] == 116 && line[3] == 97
}

/// A meaningful body line cut into its blank-line-delimited sub-events.
pub open spec fn spec_data_pieces(line: Seq<u8>) -> Seq<Seq<u8>>
    decreases line.len(),
{
    let i = find_two(line, 10, 10, 0);
    if i + 2 > line.len() {
        seq![line]
    } else {
        seq![line.take(i as int)] + spec_data_pieces(line.skip(i as int + 2))
    }
}

/// The events one sub-event contributes: its payload starts after the six
/// bytes of `"data: "`, and a delta extracted from it is one content event;
/// a missing, malformed or empty one contributes nothing.
pub open spec fn spec_piece_events(piece: Seq<u8>) -> Seq<EventView> {
    if piece.len() >= 6 {
        match spec_delta_of(piece.skip(6)) {
            Some(d) => if d.len() > 0 {
                seq![EventView::Content(d)]
            } else {
                Seq::empty()
            },
            None => Seq::empty(),
        }
    } else {
        Seq::empty()
    }
}

/// The events of all sub-events in turn.
pub open spec fn spec_pieces_events(pieces: Seq<Seq<u8>>) -> Seq<EventView>
    decreases pieces.len(),
{
    if pieces.len() == 0 {
        Seq::empty()
    } else {
        spec_piece_events(pieces[0]) + spec_pieces_events(pieces.skip(1))
    }
}

/// The content events one body line yields, in the order parsed: nothing
/// unless it starts with the event prefix, else one content event per
/// sub-event whose payload carries a non-empty delta.
pub open spec fn spec_body_line_events(line: Seq<u8>) -> Seq<EventView> {
    if starts_with_data(line) {
        spec_pieces_events(spec_data_pieces(line))
    } else {
        Seq::empty()
    }
}

/// The events the payload of `piece = line[from..to]` contributes.
fn piece_events(line: &[u8], from: usize, to: usize, events: &mut Vec<Event>)
    requires
        from <= to <= line@.len(),
    ensures
        final(events)@.map_values(|e: Event| e@) == old(events)@.map_values(|e: Event| e@)
            + spec_piece_events(line@.subrange(from as int, to as int)),
{
    let ghost piece = line@.subrange(from as int, to as int);
    if to - from >= 6 {
        let payload = slice_subrange(line, from + 6, to);
        proof {
            assert(payload@ =~= piece.skip(6));
        }
        match json_delta_content(payload) {
            Some(delta) => {
                if !delta.as_str().is_empty() {
                    let ghost events_prev = events@.map_values(|e: Event| e@);
                    let ghost dv = delta@;
                    events.push(Event::Content(delta));
                    proof {
                        assert(events@.map_values(|e: Event| e@) =~= events_prev.push(
                            EventView::Content(dv),
                        ));
                        assert(events@.map_values(|e: Event| e@) =~= events_prev
                            + spec_piece_events(piece));
                    }
                } else {
                    proof {
                        assert(old(events)@.map_values(|e: Event| e@) + spec_piece_events(piece)
                            =~= events@.map_values(|e: Event| e@));
                    }
                }
            },
            None => {
                proof {
                    assert(old(events)@.map_values(|e: Event| e@) + spec_piece_events(piece)
                        =~= events@.map_values(|e: Event| e@));
                }
            },
        }
    } else {
        proof {
            assert(old(events)@.map_values(|e: Event| e@) + spec_piece_events(piece)
                =~= events@.map_values(|e: Event| e@));
        }
    }
}

/// Parses one body line into its content events.
fn body_line_events(line: &[u8], events: &mut Vec<Event>)
    ensures
        final(events)@.map_values(|e: Event| e@) == old(events)@.map_values(|e: Event| e@)
            + spec_body_line_events(line@),
{
    let ghost emap = |e: Event| e@;
    let n = line.len();
    if !(n >= 4 && line[0] == 100 && line[1] == 97 && line[2] == 116 && line[3] == 97) {
        proof {
            assert(old(events)@.map_values(emap) + spec_body_line_events(line@) =~= events@
                .map_values(emap));
        }
        return ;
    }
    let ghost target = old(events)@.map_values(emap) + spec_body_line_events(line@);
    let mut start: usize = 0;
    let mut i = exec_find_two(line, 10, 10, 0);
    proof {
        lemma_find_two(line@, 10, 10, 0);
        assert(line@.skip(0) =~= line@);
    }
    while i < n
        invariant
            start <= i <= n,
            n == line@.len(),
            emap == (|e: Event| e@),
            i == find_two(line@, 10, 10, start as nat),
            target == events@.map_values(emap) + spec_pieces_events(
                spec_data_pieces(line@.skip(start as int)),
            ),
        decreases n - start,
    {
        proof {
            lemma_find_two(line@, 10, 10, start as nat);
            let suffix = line@.skip(start as int);
            let rel = (i - start) as nat;
            assert forall|j: int| #![trigger suffix[j]]
                0 <= j < rel && j + 1 < suffix.len() implies !(suffix[j] == 10 && suffix[j + 1]
                == 10) by {
                assert(suffix[j] == line@[start + j]);
                assert(suffix[j + 1] == line@[start + j + 1]);
            }
            assert(suffix[rel as int] == line@[i as int]);
            assert(suffix[rel as int + 1] == line@[i as int + 1]);
            lemma_find_two_unique(suffix, 10, 10, 0, rel);
            assert(spec_data_pieces(suffix) == seq![suffix.take(rel as int)]
                + spec_data_pieces(suffix.skip(rel as int + 2)));
            assert(suffix.take(rel as int) =~= line@.subrange(start as int, i as int));
            assert(suffix.skip(rel as int + 2) =~= line@.skip(i as int + 2));
            let pieces = spec_data_pieces(suffix);
            assert(pieces[0] == line@.subrange(start as int, i as int));
            assert(pieces.skip(1) =~= spec_data_pieces(line@.skip(i as int + 2)));
        }
        piece_events(line, start, i, events);
        start = i + 2;
        i = exec_find_two(line, 10, 10, start);
        proof {
            lemma_find_two(line@, 10, 10, start as nat);
        }
    }
    proof {
        lemma_find_two(line@, 10, 10, start as nat);
        let suffix = line@.skip(start as int);
        assert forall|j: int| #![trigger suffix[j]]
            0 <= j < suffix.len() && j + 1 < suffix.len() implies !(suffix[j] == 10 && suffix[j
            + 1] == 10) by {
            assert(suffix[j] == line@[start + j]);
            assert(suffix[j + 1] == line@[start + j + 1]);
        }
        lemma_find_two_unique(suffix, 10, 10, 0, suffix.len());
        assert(spec_data_pieces(suffix) == seq![suffix]);
        assert(suffix =~= line@.subrange(start as int, n as int));
        let pieces = spec_data_pieces(suffix);
        assert(pieces[0] == suffix);
        assert(pieces.skip(1) =~= Seq::<Seq<u8>>::empty());
        assert(spec_pieces_events(Seq::<Seq<u8>>::empty()) == Seq::<EventView>::empty());
        assert(spec_pieces_events(pieces) == spec_piece_events(suffix) + Seq::<
            EventView,
        >::empty());
    }
    piece_events(line, start, n, events);
    proof {
        assert(events@.map_values(emap) =~= target);
    }
}

/// What the error path reports for a non-success response: the structured
/// error body's message when one can be extracted, else a raw-text fallback
/// carrying the decoded remainder of the buffer.
pub open spec fn spec_error_text(rest: Seq<u8>) -> Seq<char> {
    match spec_error_message_of(rest) {
        Some(msg) => msg,
        None => if valid_utf8(rest) {
            "Could not parse "@ + decode_utf8(rest)
        } else {
            "Could not parse response body"@
        },
    }
}

/// Extracts the human-readable error message from a non-success response's
/// body, falling back to raw text when the body is no structured error.
fn error_text(rest: &[u8]) -> (text: String)
    ensures
        text@ == spec_error_text(rest@),
{
    match json_error_message(rest) {
        Some(msg) => msg,
        None => {
            match utf8_to_str(rest) {
                Some(s) => {
                    let mut text = String::from_str("Could not parse ");
                    text.append(s);
                    text
                },
                None => String::from_str("Could not parse response body"),
            }
        },
    }
}

/// The success status token.
pub open spec fn spec_status_ok(h: HeadersView) -> bool {
    h.status == Some(seq![50u8, 48u8, 48u8])
}

/// The parser state of one streaming session: the accumulated raw response
/// bytes, the cursor index past the consumed lines, the header mapping, the
/// headers-vs-body flag, and whether the session has ended.
#[verifier::ext_equal]
pub struct SessionModel {
    pub buf: Seq<u8>,
    pub index: int,
    pub in_header: bool,
    pub headers: HeadersView,
    pub closed: bool,
}

pub open spec fn model_wf(m: SessionModel) -> bool {
    0 <= m.index <= m.buf.len()
}

pub open spec fn init_model() -> SessionModel {
    SessionModel {
        buf: Seq::empty(),
        index: 0,
        in_header: true,
        headers: empty_headers(),
        closed: false,
    }
}

/// The two-state scan over the unconsumed bytes, run to its fixpoint: each
/// complete CRLF-terminated line is consumed in turn. A header-section line
/// feeds the header mapping; the empty line ending the headers emits the
/// start event — for the assistant on success, or, on any other status, the
/// system-role start, the extracted error message and the terminal done
/// marker, ending the session. A body line contributes its content events;
/// the empty line ending the body emits the done marker and ends the
/// session. The scan stops when no full line remains. (The scan cannot
/// return an index before the cursor or past the buffer; those branches
/// only close the recursion.)
pub open spec fn drain(m: SessionModel) -> (SessionModel, Seq<EventView>)
    decreases m.buf.len() - m.index,
{
    if m.closed || m.index < 0 || m.index > m.buf.len() {
        (m, Seq::empty())
    } else {
        let i = find_two(m.buf, 13, 10, m.index as nat) as int;
        if i + 2 > m.buf.len() || i < m.index {
            (m, Seq::empty())
        } else if i == m.index {
            if m.in_header {
                if !spec_status_ok(m.headers) {
                    let rest = m.buf.skip(i + 2);
                    (
                        SessionModel { index: i + 2, in_header: false, closed: true, ..m },
                        seq![
                            EventView::Start(Role::System),
                            EventView::Content(spec_error_text(rest)),
                            EventView::Done,
                        ],
                    )
                } else {
                    let rec = drain(SessionModel { index: i + 2, in_header: false, ..m });
                    (rec.0, seq![EventView::Start(Role::AI)] + rec.1)
                }
            } else {
                (SessionModel { index: i + 2, closed: true, ..m }, seq![EventView::Done])
            }
        } else {
            let line = trim_bytes(m.buf.subrange(m.index, i));
            if m.in_header {
                drain(
                    SessionModel {
                        index: i + 2,
                        headers: spec_parse_header_step(m.headers, line),
                        ..m
                    },
                )
            } else {
                let rec = drain(SessionModel { index: i + 2, ..m });
                (rec.0, spec_body_line_events(line) + rec.1)
            }
        }
    }
}

/// Whether the scan of `m` never takes the error path: the response's
/// status, where its header section completes, is the success code. A
/// session in this state parses the same events whatever the chunking.
pub open spec fn drain_ok(m: SessionModel) -> bool
    decreases m.buf.len() - m.index,
{
    if m.closed || m.index < 0 || m.index > m.buf.len() {
        true
    } else {
        let i = find_two(m.buf, 13, 10, m.index as nat) as int;
        if i + 2 > m.buf.len() || i < m.index {
            true
        } else if i == m.index {
            if m.in_header {
                spec_status_ok(m.headers) && drain_ok(
                    SessionModel { index: i + 2, in_header: false, ..m },
                )
            } else {
                true
            }
        } else {
            let line = trim_bytes(m.buf.subrange(m.index, i));
            if m.in_header {
                drain_ok(
                    SessionModel {
                        index: i + 2,
                        headers: spec_parse_header_step(m.headers, line),
                        ..m
                    },
                )
            } else {
                drain_ok(SessionModel { index: i + 2, ..m })
            }
        }
    }
}

/// What feeding one chunk does: the new bytes join the buffer, and the scan
/// resumes from the last consumed offset.
pub open spec fn spec_step(m: SessionModel, chunk: Seq<u8>) -> (SessionModel, Seq<EventView>) {
    drain(SessionModel { buf: m.buf + chunk, ..m })
}

/// How many terminal done markers a sequence of events holds.
pub open spec fn done_count(events: Seq<EventView>) -> nat
    decreases events.len(),
{
    if events.len() == 0 {
        0
    } else {
        done_count(events.drop_last()) + (if events.last() is Done {
            1nat
        } else {
            0nat
        })
    }
}

proof fn lemma_done_count_concat(a: Seq<EventView>, b: Seq<EventView>)
    ensures
        done_count(a + b) == done_count(a) + done_count(b),
    decreases b.len(),
{
    if b.len() == 0 {
        assert(a + b =~= a);
    } else {
        assert((a + b).drop_last() =~= a + b.drop_last());
        assert((a + b).last() == b.last());
        lemma_done_count_concat(a, b.drop_last());
    }
}

proof fn lemma_done_count_small()
    ensures
        done_count(Seq::<EventView>::empty()) == 0,
        forall|role: Role| done_count(seq![EventView::Start(role)]) == 0,
        forall|text: Seq<char>| done_count(seq![EventView::Content(text)]) == 0,
        done_count(seq![EventView::Done]) == 1,
{
    assert(done_count(Seq::<EventView>::empty()) == 0);
    assert forall|role: Role| done_count(seq![EventView::Start(role)]) == 0 by {
        assert(seq![EventView::Start(role)].drop_last() =~= Seq::<EventView>::empty());
        assert(done_count(Seq::<EventView>::empty()) == 0);
    }
    assert forall|text: Seq<char>| done_count(seq![EventView::Content(text)]) == 0 by {
        assert(seq![EventView::Content(text)].drop_last() =~= Seq::<EventView>::empty());
        assert(done_count(Seq::<EventView>::empty()) == 0);
    }
    assert(seq![EventView::Done].drop_last() =~= Seq::<EventView>::empty());
}

proof fn lemma_done_count_error_events(msg: Seq<char>)
    ensures
        done_count(
            seq![EventView::Start(Role::System), EventView::Content(msg), EventView::Done],
        ) == 1,
{
    let e = seq![EventView::Start(Role::System), EventView::Content(msg), EventView::Done];
    lemma_done_count_small();
    assert(e =~= seq![EventView::Start(Role::System)] + seq![EventView::Content(msg)] + seq![
        EventView::Done,
    ]);
    lemma_done_count_concat(
        seq![EventView::Start(Role::System)] + seq![EventView::Content(msg)],
        seq![EventView::Done],
    );
    lemma_done_count_concat(seq![EventView::Start(Role::System)], seq![EventView::Content(msg)]);
}

proof fn lemma_pieces_events_no_done(pieces: Seq<Seq<u8>>)
    ensures
        done_count(spec_pieces_events(pieces)) == 0,
    decreases pieces.len(),
{
    lemma_done_count_small();
    if pieces.len() == 0 {
    } else {
        lemma_pieces_events_no_done(pieces.skip(1));
        lemma_done_count_concat(spec_piece_events(pieces[0]), spec_pieces_events(pieces.skip(1)));
    }
}

proof fn lemma_body_line_events_no_done(line: Seq<u8>)
    ensures
        done_count(spec_body_line_events(line)) == 0,
{
    lemma_done_count_small();
    if starts_with_data(line) {
        lemma_pieces_events_no_done(spec_data_pieces(line));
    }
}

/// The scan leaves the buffer alone, moves the cursor only forward, stays
/// well-formed, returns immediately on a closed session, and emits the done
/// marker exactly once — on the pass that ends the session, and never
/// again.
pub proof fn lemma_drain_basic(m: SessionModel)
    requires
        model_wf(m),
    ensures
        drain(m).0.buf == m.buf,
        model_wf(drain(m).0),
        m.index <= drain(m).0.index,
        drain(m).0.in_header ==> m.in_header,
        m.closed ==> drain(m) == (m, Seq::<EventView>::empty()),
        m.closed ==> drain(m).0.closed,
        done_count(drain(m).1) == (if !m.closed && drain(m).0.closed {
            1int
        } else {
            0int
        }),
    decreases m.buf.len() - m.index,
{
    lemma_done_count_small();
    if m.closed || m.index < 0 || m.index > m.buf.len() {
    } else {
        let i = find_two(m.buf, 13, 10, m.index as nat) as int;
        lemma_find_two(m.buf, 13, 10, m.index as nat);
        if i + 2 > m.buf.len() || i < m.index {
        } else if i == m.index {
            if m.in_header {
                if !spec_status_ok(m.headers) {
                    lemma_done_count_error_events(spec_error_text(m.buf.skip(i + 2)));
                } else {
                    let next = SessionModel { index: i + 2, in_header: false, ..m };
                    lemma_drain_basic(next);
                    lemma_done_count_concat(seq![EventView::Start(Role::AI)], drain(next).1);
                }
            }
        } else {
            let line = trim_bytes(m.buf.subrange(m.index, i));
            if m.in_header {
                lemma_drain_basic(
                    SessionModel {
                        index: i + 2,
                        headers: spec_parse_header_step(m.headers, line),
                        ..m
                    },
                );
            } else {
                let next = SessionModel { index: i + 2, ..m };
                lemma_drain_basic(next);
                lemma_body_line_events_no_done(line);
                lemma_done_count_concat(spec_body_line_events(line), drain(next).1);
            }
        }
    }
}

/// Draining, then appending more bytes and draining again, consumes the
/// same lines and emits the same events as appending first and draining
/// once — provided the extended scan never takes the error path (that path
/// reads the error body from whatever has accumulated so far, which does
/// depend on timing). The scan of the shorter buffer then avoids the error
/// path too.
pub proof fn lemma_drain_append(m: SessionModel, extra: Seq<u8>)
    requires
        model_wf(m),
        drain_ok(SessionModel { buf: m.buf + extra, ..m }),
    ensures
        drain_ok(m),
        drain(SessionModel { buf: drain(m).0.buf + extra, ..drain(m).0 }).0 == drain(
            SessionModel { buf: m.buf + extra, ..m },
        ).0,
        drain(m).1 + drain(SessionModel { buf: drain(m).0.buf + extra, ..drain(m).0 }).1 == drain(
            SessionModel { buf: m.buf + extra, ..m },
        ).1,
    decreases m.buf.len() - m.index,
{
    let ext = SessionModel { buf: m.buf + extra, ..m };
    if m.closed {
        assert(drain(m) == (m, Seq::<EventView>::empty()));
        assert(SessionModel { buf: drain(m).0.buf + extra, ..drain(m).0 } =~= ext);
        assert(Seq::<EventView>::empty() + drain(ext).1 =~= drain(ext).1);
    } else {
        let i = find_two(m.buf, 13, 10, m.index as nat) as int;
        lemma_find_two(m.buf, 13, 10, m.index as nat);
        if i >= m.buf.len() {
            assert(drain(m) == (m, Seq::<EventView>::empty()));
            assert(SessionModel { buf: drain(m).0.buf + extra, ..drain(m).0 } =~= ext);
            assert(Seq::<EventView>::empty() + drain(ext).1 =~= drain(ext).1);
        } else {
            lemma_find_two_stable(m.buf, extra, 13, 10, m.index as nat);
            assert(find_two(ext.buf, 13, 10, m.index as nat) as int == i);
            assert(i + 2 <= m.buf.len() <= ext.buf.len());
            if i == m.index {
                if m.in_header {
                    assert(spec_status_ok(m.headers));
                    let next = SessionModel { index: i + 2, in_header: false, ..m };
                    let next_ext = SessionModel { index: i + 2, in_header: false, ..ext };
                    assert(next_ext =~= SessionModel { buf: next.buf + extra, ..next });
                    assert(drain_ok(next_ext));
                    lemma_drain_append(next, extra);
                    assert(drain(m).0 == drain(next).0);
                    assert(drain(m).1 == seq![EventView::Start(Role::AI)] + drain(next).1);
                    assert(drain(ext).1 == seq![EventView::Start(Role::AI)] + drain(next_ext).1);
                    assert(drain(m).1 + drain(
                        SessionModel { buf: drain(m).0.buf + extra, ..drain(m).0 },
                    ).1 =~= drain(ext).1);
                } else {
                    let closed_m = SessionModel { index: i + 2, closed: true, ..m };
                    let closed_ext = SessionModel { index: i + 2, closed: true, ..ext };
                    assert(drain(m) == (closed_m, seq![EventView::Done]));
                    assert(drain(ext) == (closed_ext, seq![EventView::Done]));
                    let after = SessionModel { buf: closed_m.buf + extra, ..closed_m };
                    assert(after.closed);
                    assert(drain(after) == (after, Seq::<EventView>::empty()));
                    assert(after =~= closed_ext);
                    assert(seq![EventView::Done] + Seq::<EventView>::empty() =~= seq![
                        EventView::Done,
                    ]);
                }
            } else {
                assert(ext.buf.subrange(m.index, i) =~= m.buf.subrange(m.index, i));
                let line = trim_bytes(m.buf.subrange(m.index, i));
                if m.in_header {
                    let next = SessionModel {
                        index: i + 2,
                        headers: spec_parse_header_step(m.headers, line),
                        ..m
                    };
                    let next_ext = SessionModel {
                        index: i + 2,
                        headers: spec_parse_header_step(m.headers, line),
                        ..ext
                    };
                    assert(next_ext =~= SessionModel { buf: next.buf + extra, ..next });
                    assert(drain_ok(next_ext));
                    lemma_drain_append(next, extra);
                    assert(drain(m) == drain(next));
                    assert(drain(ext) == drain(next_ext));
                } else {
                    let next = SessionModel { index: i + 2, ..m };
                    let next_ext = SessionModel { index: i + 2, ..ext };
                    assert(next_ext =~= SessionModel { buf: next.buf + extra, ..next });
                    assert(drain_ok(next_ext));
                    lemma_drain_append(next, extra);
                    assert(drain(m).0 == drain(next).0);
                    assert(drain(m).1 == spec_body_line_events(line) + drain(next).1);
                    assert(drain(ext).1 == spec_body_line_events(line) + drain(next_ext).1);
                    assert(drain(m).1 + drain(
                        SessionModel { buf: drain(m).0.buf + extra, ..drain(m).0 },
                    ).1 =~= drain(ext).1);
                }
            }
        }
    }
}

/// The bytes of all chunks in order.
pub open spec fn concat_chunks(chunks: Seq<Seq<u8>>) -> Seq<u8>
    decreases chunks.len(),
{
    if chunks.len() == 0 {
        Seq::empty()
    } else {
        concat_chunks(chunks.drop_last()) + chunks.last()
    }
}

/// A fresh parse state holding `bytes`, none of them consumed yet.
pub open spec fn init_with(bytes: Seq<u8>) -> SessionModel {
    SessionModel { buf: bytes, ..init_model() }
}

/// The chunked run: the parse state and the cumulative events after a
/// fresh session is fed each chunk in turn.
pub open spec fn run_chunks(chunks: Seq<Seq<u8>>) -> (SessionModel, Seq<EventView>)
    decreases chunks.len(),
{
    if chunks.len() == 0 {
        (init_model(), Seq::empty())
    } else {
        let prev = run_chunks(chunks.drop_last());
        let step = spec_step(prev.0, chunks.last());
        (step.0, prev.1 + step.1)
    }
}

/// Chunk boundaries do not affect parsing: feeding a response split across
/// arbitrary byte-chunk boundaries — a split inside a line terminator
/// included — ends in the same parse state and yields the same sequence of
/// emitted events as feeding the whole response as one contiguous read.
/// This holds whenever the scan of the whole response stays off the error
/// path: its status, where the header section completes, is the success
/// code (the error path reports on whatever bytes have accumulated, so its
/// message can depend on the chunking).
pub proof fn lemma_chunking_irrelevant(chunks: Seq<Seq<u8>>)
    requires
        drain_ok(init_with(concat_chunks(chunks))),
    ensures
        run_chunks(chunks).0 == drain(init_with(concat_chunks(chunks))).0,
        run_chunks(chunks).1 == drain(init_with(concat_chunks(chunks))).1,
    decreases chunks.len(),
{
    if chunks.len() == 0 {
        let m = init_with(concat_chunks(chunks));
        assert(concat_chunks(chunks) =~= Seq::<u8>::empty());
        assert(m =~= init_model());
        assert(drain(init_model()) == (init_model(), Seq::<EventView>::empty()));
    } else {
        let cs = chunks.drop_last();
        let c = chunks.last();
        let whole = concat_chunks(chunks);
        let prefix = concat_chunks(cs);
        let m = init_with(prefix);
        assert(whole == prefix + c);
        assert(model_wf(m));
        assert(SessionModel { buf: m.buf + c, ..m } =~= init_with(whole));
        lemma_drain_append(m, c);
        lemma_chunking_irrelevant(cs);
        let m1 = drain(m).0;
        lemma_drain_basic(m);
        assert(run_chunks(cs).0 == m1);
        assert(spec_step(m1, c) == drain(SessionModel { buf: m1.buf + c, ..m1 }));
        assert(run_chunks(chunks).0 == drain(init_with(whole)).0);
        assert(run_chunks(chunks).1 =~= drain(init_with(whole)).1);
    }
}

/// One streaming session's transient state, owned by the worker thread for
/// the lifetime of one request: the accumulated raw response, a cursor past
/// the consumed lines, the header mapping, the headers-vs-body flag, and —
/// as ghost history — every event delivered so far.
pub struct Session {
    pub response: Vec<u8>,
    pub index: usize,
    pub headers: Headers,
    pub is_parsing_header: bool,
    pub closed: bool,
    pub emitted: Ghost<Seq<EventView>>,
}

impl Session {
    pub open spec fn model(&self) -> SessionModel {
        SessionModel {
            buf: self.response@,
            index: self.index as int,
            in_header: self.is_parsing_header,
            headers: self.headers@,
            closed: self.closed,
        }
    }

    /// The session invariant: the cursor stays within the buffer, and the
    /// terminal done marker has been delivered exactly once iff the
    /// session has ended — never before, never twice.
    pub open spec fn inv(&self) -> bool {
        &&& model_wf(self.model())
        &&& done_count(self.emitted@) == (if self.closed {
            1int
        } else {
            0int
        })
    }

    pub fn new() -> (session: Session)
        ensures
            session.inv(),
            session.model() == init_model(),
            session.emitted@ == Seq::<EventView>::empty(),
    {
        let session = Session {
            response: Vec::new(),
            index: 0,
            headers: Headers { entries: Vec::new(), protocol: None, status: None, status_msg: None },
            is_parsing_header: true,
            closed: false,
            emitted: Ghost(Seq::empty()),
        };
        proof {
            assert(session.headers@.entries =~= empty_headers().entries);
            assert(session.headers@ == empty_headers());
            assert(session.model() =~= init_model());
            assert(done_count(Seq::<EventView>::empty()) == 0);
        }
        session
    }

    /// Feeds the bytes of one successful read and scans for newly completed
    /// lines, returning the events they yield, in order. A session that has
    /// already ended accumulates the bytes but emits nothing.
    pub fn push_chunk(&mut self, chunk: &[u8]) -> (events: Vec<Event>)
        requires
            old(self).inv(),
        ensures
            final(self).inv(),
            final(self).model() == spec_step(old(self).model(), chunk@).0,
            events@.map_values(|e: Event| e@) == spec_step(old(self).model(), chunk@).1,
            final(self).emitted@ == old(self).emitted@ + events@.map_values(|e: Event| e@),
    {
        let ghost emap = |e: Event| e@;
        let mut k: usize = 0;
        while k < chunk.len()
            invariant
                k <= chunk@.len(),
                self.response@ == old(self).response@ + chunk@.take(k as int),
                self.index == old(self).index,
                self.headers == old(self).headers,
                self.is_parsing_header == old(self).is_parsing_header,
                self.closed == old(self).closed,
                self.emitted == old(self).emitted,
                old(self).inv(),
            decreases chunk@.len() - k,
        {
            self.response.push(chunk[k]);
            proof {
                assert(chunk@.take(k + 1) =~= chunk@.take(k as int).push(chunk@[k as int]));
            }
            k = k + 1;
        }
        proof {
            assert(chunk@.take(chunk@.len() as int) =~= chunk@);
        }
        let ghost start = self.model();
        proof {
            assert(start =~= SessionModel { buf: old(self).model().buf + chunk@, ..old(self).model() });
            assert(spec_step(old(self).model(), chunk@) == drain(start));
        }
        let mut events: Vec<Event> = Vec::new();
        let mut scanning = true;
        proof {
            assert(events@.map_values(emap) =~= Seq::<EventView>::empty());
            assert(Seq::<EventView>::empty() + drain(start).1 =~= drain(start).1);
        }
        while scanning
            invariant
                emap == (|e: Event| e@),
                self.response@ == start.buf,
                model_wf(self.model()),
                self.emitted == old(self).emitted,
                drain(start).0 == drain(self.model()).0,
                drain(start).1 == events@.map_values(emap) + drain(self.model()).1,
                !scanning ==> drain(self.model()) == (self.model(), Seq::<EventView>::empty()),
            decreases self.response@.len() - self.index + (if scanning {
                1int
            } else {
                0int
            }),
        {
            let ghost m0 = self.model();
            if self.closed {
                scanning = false;
            } else {
                let n = self.response.len();
                let i = exec_find_two(self.response.as_slice(), 13, 10, self.index);
                proof {
                    lemma_find_two(self.response@, 13, 10, self.index as nat);
                }
                if i >= n {
                    scanning = false;
                } else if i == self.index {
                    if self.is_parsing_header {
                        self.index = i + 2;
                        self.is_parsing_header = false;
                        if !status_ok(&self.headers) {
                            let rest = slice_subrange(self.response.as_slice(), i + 2, n);
                            let msg = error_text(rest);
                            let ghost msgv = msg@;
                            let ghost events_prev = events@.map_values(emap);
                            events.push(Event::Start(Role::System));
                            events.push(Event::Content(msg));
                            events.push(Event::Done);
                            self.closed = true;
                            proof {
                                assert(rest@ =~= m0.buf.skip(m0.index + 2));
                                assert(drain(m0).0 =~= self.model());
                                assert(drain(m0).1 == seq![
                                    EventView::Start(Role::System),
                                    EventView::Content(spec_error_text(rest@)),
                                    EventView::Done,
                                ]);
                                assert(events@.map_values(emap) =~= events_prev + drain(m0).1);
                                assert(drain(self.model()) == (
                                    self.model(),
                                    Seq::<EventView>::empty(),
                                ));
                                assert(events@.map_values(emap) + drain(self.model()).1
                                    =~= events_prev + drain(m0).1);
                            }
                        } else {
                            let ghost events_prev = events@.map_values(emap);
                            events.push(Event::Start(Role::AI));
                            proof {
                                let rec = drain(self.model());
                                assert(drain(m0).0 == rec.0);
                                assert(drain(m0).1 == seq![EventView::Start(Role::AI)] + rec.1);
                                assert(events@.map_values(emap) =~= events_prev.push(
                                    EventView::Start(Role::AI),
                                ));
                                assert(events@.map_values(emap) + rec.1 =~= events_prev + drain(
                                    m0,
                                ).1);
                            }
                        }
                    } else {
                        let ghost events_prev = events@.map_values(emap);
                        self.index = i + 2;
                        self.closed = true;
                        events.push(Event::Done);
                        proof {
                            assert(drain(m0).0 =~= self.model());
                            assert(drain(m0).1 == seq![EventView::Done]);
                            assert(events@.map_values(emap) =~= events_prev.push(EventView::Done));
                            assert(drain(self.model()) == (
                                self.model(),
                                Seq::<EventView>::empty(),
                            ));
                            assert(events@.map_values(emap) + drain(self.model()).1 =~= events_prev
                                + drain(m0).1);
                        }
                    }
                } else {
                    let line = trim_range(self.response.as_slice(), self.index, i);
                    if self.is_parsing_header {
                        on_parse_header(line.as_slice(), &mut self.headers);
                        self.index = i + 2;
                        proof {
                            assert(line@ == trim_bytes(m0.buf.subrange(m0.index, i as int)));
                            assert(self.model() =~= SessionModel {
                                index: i as int + 2,
                                headers: spec_parse_header_step(m0.headers, line@),
                                ..m0
                            });
                            assert(drain(m0) == drain(self.model()));
                        }
                    } else {
                        let ghost events_prev = events@.map_values(emap);
                        body_line_events(line.as_slice(), &mut events);
                        self.index = i + 2;
                        proof {
                            let rec = drain(self.model());
                            assert(line@ == trim_bytes(m0.buf.subrange(m0.index, i as int)));
                            assert(self.model() =~= SessionModel { index: i as int + 2, ..m0 });
                            assert(drain(m0).0 == rec.0);
                            assert(drain(m0).1 == spec_body_line_events(line@) + rec.1);
                            assert(events@.map_values(emap) == events_prev + spec_body_line_events(
                                line@,
                            ));
                            assert(events@.map_values(emap) + rec.1 =~= events_prev + drain(
                                m0,
                            ).1);
                        }
                    }
                }
            }
        }
        let ghost final_events = events@.map_values(emap);
        self.emitted = Ghost(old(self).emitted@ + final_events);
        proof {
            assert(drain(start).1 =~= final_events + Seq::<EventView>::empty());
            assert(drain(start) == (self.model(), final_events));
            lemma_drain_basic(start);
            lemma_done_count_concat(old(self).emitted@, final_events);
        }
        events
    }

    /// A read error, or the stream's end without its explicit marker, ends
    /// the session: the error description is surfaced as a system-role
    /// message, and the terminal done marker follows it — after which the
    /// history holds exactly one done marker, standing last.
    pub fn fail(&mut self, message: String) -> (events: Vec<Event>)
        requires
            old(self).inv(),
            !old(self).closed,
        ensures
            final(self).inv(),
            final(self).closed,
            final(self).model() == (SessionModel { closed: true, ..old(self).model() }),
            events@.map_values(|e: Event| e@) == seq![
                EventView::Start(Role::System),
                EventView::Content(message@),
                EventView::Done,
            ],
            final(self).emitted@ == old(self).emitted@ + events@.map_values(|e: Event| e@),
            done_count(final(self).emitted@) == 1,
            final(self).emitted@.len() > 0 && final(self).emitted@.last() is Done,
    {
        let ghost emap = |e: Event| e@;
        let ghost msgv = message@;
        let mut events: Vec<Event> = Vec::new();
        events.push(Event::Start(Role::System));
        events.push(Event::Content(message));
        events.push(Event::Done);
        self.closed = true;
        self.emitted = Ghost(old(self).emitted@ + events@.map_values(emap));
        proof {
            assert(events@.map_values(emap) =~= seq![
                EventView::Start(Role::System),
                EventView::Content(msgv),
                EventView::Done,
            ]);
            lemma_done_count_error_events(msgv);
            lemma_done_count_concat(old(self).emitted@, events@.map_values(emap));
            assert(self.model() =~= SessionModel { closed: true, ..old(self).model() });
            assert(self.emitted@.last() == EventView::Done);
        }
        events
    }
}

/// Whether the status line carried the success code "200".
pub fn status_ok(headers: &Headers) -> (ok: bool)
    ensures
        ok == spec_status_ok(headers@),
{
    match &headers.status {
        Some(code) => {
            if code.len() == 3 {
                let ok = code[0] == 50 && code[1] == 48 && code[2] == 48;
                proof {
                    if ok {
                        assert(code@ =~= seq![50u8, 48u8, 48u8]);
                    } else {
                        assert(code@ != seq![50u8, 48u8, 48u8]);
                    }
                }
                ok
            } else {
                proof {
                    assert(code@ != seq![50u8, 48u8, 48u8]);
                }
                false
            }
        },
        None => false,
    }
}


pub const CHAT_MODEL: &'static str = "gpt-3.5-turbo";

/// The character for decimal digit `d`.
pub open spec fn digit_char(d: nat) -> char {
    ((48 + d) as u8) as char
}

/// The decimal digits of `n`, most significant first.
pub open spec fn spec_dec(n: nat) -> Seq<char>
    decreases n,
{
    if n < 10 {
        seq![digit_char(n)]
    } else {
        spec_dec(n / 10) + seq![digit_char(n % 10)]
    }
}

/// Writes `n` in decimal.
fn dec_string(n: usize) -> (s: String)
    ensures
        s@ == spec_dec(n as nat),
{
    let mut digits: Vec<char> = Vec::new();
    let mut v: usize = n;
    while v >= 10
        invariant
            spec_dec(n as nat) == spec_dec(v as nat) + digits@.reverse(),
        decreases v,
    {
        let d = ((v % 10) as u8) + 48;
        let ghost digits_prev = digits@;
        digits.push(d as char);
        proof {
            assert(d as char == digit_char((v % 10) as nat));
            assert(digits@.reverse() =~= seq![digit_char((v % 10) as nat)]
                + digits_prev.reverse());
            assert(spec_dec(v as nat) == spec_dec((v / 10) as nat) + seq![
                digit_char((v % 10) as nat),
            ]);
            assert(spec_dec((v / 10) as nat) + digits@.reverse() =~= spec_dec(v as nat)
                + digits_prev.reverse());
        }
        v = v / 10;
    }
    let d = (v as u8) + 48;
    let ghost digits_prev = digits@;
    digits.push(d as char);
    proof {
        assert(d as char == digit_char(v as nat));
        assert(digits@.reverse() =~= seq![digit_char(v as nat)] + digits_prev.reverse());
        assert(spec_dec(v as nat) == seq![digit_char(v as nat)]);
        assert(spec_dec(n as nat) =~= digits@.reverse());
    }
    let mut s = String::new();
    let mut i = digits.len();
    while i > 0
        invariant
            i <= digits@.len(),
            s@ == digits@.subrange(i as int, digits@.len() as int).reverse(),
        decreases i,
    {
        i = i - 1;
        push_char(&mut s, digits[i]);
        proof {
            assert(s@ =~= digits@.subrange(i as int, digits@.len() as int).reverse());
        }
    }
    proof {
        assert(digits@.subrange(0, digits@.len() as int) =~= digits@);
    }
    s
}

/// The character for hexadecimal digit `d`, lower case.
pub open spec fn hex_digit(d: nat) -> char {
    if d < 10 {
        digit_char(d)
    } else {
        ((87 + d) as u8) as char
    }
}

/// JSON string escaping of one character: quote and backslash get a
/// backslash, the common control characters their short escapes, any other
/// control character a `\u00..` escape; everything else stands as itself.
pub open spec fn spec_escape_char(c: char) -> Seq<char> {
    if c == '"' {
        seq!['\\', '"']
    } else if c == '\\' {
        seq!['\\', '\\']
    } else if c == '\n' {
        seq!['\\', 'n']
    } else if c == '\r' {
        seq!['\\', 'r']
    } else if c == '\t' {
        seq!['\\', 't']
    } else if (c as u32) < 32 {
        seq!['\\', 'u', '0', '0', hex_digit(((c as u32) / 16) as nat), hex_digit(
            ((c as u32) % 16) as nat,
        )]
    } else {
        seq![c]
    }
}

/// JSON string escaping, character by character.
pub open spec fn spec_escape(s: Seq<char>) -> Seq<char>
    decreases s.len(),
{
    if s.len() == 0 {
        Seq::empty()
    } else {
        spec_escape_char(s[0]) + spec_escape(s.skip(1))
    }
}

proof fn lemma_escape_snoc(s: Seq<char>, c: char)
    ensures
        spec_escape(s.push(c)) == spec_escape(s) + spec_escape_char(c),
    decreases s.len(),
{
    if s.len() == 0 {
        assert(s.push(c)[0] == c);
        assert(s.push(c).skip(1) =~= Seq::<char>::empty());
        assert(spec_escape(Seq::<char>::empty()) == Seq::<char>::empty());
        assert(spec_escape(s.push(c)) == spec_escape_char(c) + Seq::<char>::empty());
        assert(spec_escape_char(c) + Seq::<char>::empty() =~= spec_escape_char(c));
        assert(spec_escape(s) + spec_escape_char(c) =~= spec_escape_char(c));
    } else {
        assert(s.push(c)[0] == s[0]);
        assert(s.push(c).skip(1) =~= s.skip(1).push(c));
        lemma_escape_snoc(s.skip(1), c);
        assert(spec_escape(s.push(c)) =~= spec_escape(s) + spec_escape_char(c));
    }
}

fn hex_digit_char(d: u32) -> (c: char)
    requires
        d < 16,
    ensures
        c == hex_digit(d as nat),
{
    if d < 10 {
        ((48 + d) as u8) as char
    } else {
        ((87 + d) as u8) as char
    }
}

/// Appends the JSON escaping of `s` onto `out`.
fn escape_into(s: &str, out: &mut String)
    ensures
        final(out)@ == old(out)@ + spec_escape(s@),
{
    let n = s.unicode_len();
    let mut i: usize = 0;
    proof {
        assert(s@.take(0) =~= Seq::<char>::empty());
        assert(spec_escape(Seq::<char>::empty()) == Seq::<char>::empty());
        assert(out@ =~= old(out)@ + spec_escape(s@.take(0)));
    }
    while i < n
        invariant
            i <= n,
            n == s@.len(),
            out@ == old(out)@ + spec_escape(s@.take(i as int)),
        decreases n - i,
    {
        let c = s.get_char(i);
        if c == '"' {
            out.append("\\\"");
            proof {
                reveal_strlit("\\\"");
                assert("\\\""@ =~= spec_escape_char(c));
            }
        } else if c == '\\' {
            out.append("\\\\");
            proof {
                reveal_strlit("\\\\");
                assert("\\\\"@ =~= spec_escape_char(c));
            }
        } else if c == '\n' {
            out.append("\\n");
            proof {
                reveal_strlit("\\n");
                assert("\\n"@ =~= spec_escape_char(c));
            }
        } else if c == '\r' {
            out.append("\\r");
            proof {
                reveal_strlit("\\r");
                assert("\\r"@ =~= spec_escape_char(c));
            }
        } else if c == '\t' {
            out.append("\\t");
            proof {
                reveal_strlit("\\t");
                assert("\\t"@ =~= spec_escape_char(c));
            }
        } else if (c as u32) < 32 {
            let ghost out_prev = out@;
            out.append("\\u00");
            push_char(out, hex_digit_char((c as u32) / 16));
            push_char(out, hex_digit_char((c as u32) % 16));
            proof {
                reveal_strlit("\\u00");
                assert(out@ =~= out_prev + spec_escape_char(c));
            }
        } else {
            push_char(out, c);
            proof {
                assert(seq![c] =~= spec_escape_char(c));
            }
        }
        proof {
            assert(s@.take(i + 1) =~= s@.take(i as int).push(s@[i as int]));
            lemma_escape_snoc(s@.take(i as int), s@[i as int]);
            assert(out@ =~= old(out)@ + spec_escape(s@.take(i + 1)));
        }
        i = i + 1;
    }
    proof {
        assert(s@.take(n as int) =~= s@);
    }
}

/// One conversation entry as a JSON message record: its role's wire name
/// and its content, escaped.
pub open spec fn spec_message(entry: (Role, String)) -> Seq<char> {
    "{\"role\":\""@ + entry.0.spec_value() + "\",\"content\":\""@ + spec_escape(entry.1@)
        + "\"}"@
}

/// The conversation as a comma-separated list of message records, in order.
pub open spec fn spec_messages(conv: Seq<(Role, String)>) -> Seq<char>
    decreases conv.len(),
{
    if conv.len() == 0 {
        Seq::empty()
    } else if conv.len() == 1 {
        spec_message(conv[0])
    } else {
        spec_messages(conv.drop_last()) + seq![','] + spec_message(conv.last())
    }
}

/// The JSON request body for one chat turn: the model, the full ordered
/// conversation, and the streaming flag.
pub open spec fn spec_body(conv: Seq<(Role, String)>) -> Seq<char> {
    "{\"model\":\""@ + CHAT_MODEL@ + "\",\"messages\":["@ + spec_messages(conv)
        + "],\"stream\":true}"@
}

/// The complete request frame: request line, headers with the exact byte
/// length of the body as its content length and the bearer secret, an
/// empty line, then the body.
pub open spec fn spec_request(conv: Seq<(Role, String)>, secret: Seq<char>) -> Seq<char> {
    let body = spec_body(conv);
    "POST /v1/chat/completions HTTP/1.1\r\nHost: api.openai.com\r\nContent-Length: "@
        + spec_dec(vstd::utf8::encode_utf8(body).len()) + "\r\nContent-Type: application/json\r\nAuthorization: Bearer "@
        + secret + "\r\n\r\n"@ + body
}

/// Builds the single framed request for one chat turn from the full
/// ordered conversation log and the bearer secret. The content length
/// states the byte length of the body exactly: the remote service rejects
/// length mismatches.
pub fn make_prompt(conv: &Vec<(Role, String)>, secret: &str) -> (request: String)
    ensures
        request@ == spec_request(conv@, secret@),
{
    let mut body = String::from_str("{\"model\":\"");
    body.append(CHAT_MODEL);
    body.append("\",\"messages\":[");
    let ghost msgs_start = body@;
    let mut i: usize = 0;
    proof {
        assert(conv@.take(0) =~= Seq::<(Role, String)>::empty());
        assert(body@ =~= msgs_start + spec_messages(conv@.take(0)));
    }
    while i < conv.len()
        invariant
            i <= conv@.len(),
            msgs_start == "{\"model\":\""@ + CHAT_MODEL@ + "\",\"messages\":["@,
            body@ == msgs_start + spec_messages(conv@.take(i as int)),
        decreases conv@.len() - i,
    {
        if i > 0 {
            body.append(",");
            proof {
                reveal_strlit(",");
                assert(","@ =~= seq![',']);
            }
        }
        let ghost before_msg = body@;
        body.append("{\"role\":\"");
        body.append(conv[i].0.value());
        body.append("\",\"content\":\"");
        escape_into(conv[i].1.as_str(), &mut body);
        body.append("\"}");
        proof {
            assert(body@ =~= before_msg + spec_message(conv@[i as int]));
            assert(conv@.take(i + 1).drop_last() =~= conv@.take(i as int));
            assert(conv@.take(i + 1).last() == conv@[i as int]);
            if i == 0 {
                assert(spec_messages(conv@.take(1)) == spec_message(conv@[0]));
                assert(body@ =~= msgs_start + spec_messages(conv@.take(1)));
            } else {
                assert(spec_messages(conv@.take(i + 1)) == spec_messages(conv@.take(i as int))
                    + seq![','] + spec_message(conv@[i as int]));
                assert(body@ =~= msgs_start + spec_messages(conv@.take(i + 1)));
            }
        }
        i = i + 1;
    }
    body.append("],\"stream\":true}");
    proof {
        assert(conv@.take(conv@.len() as int) =~= conv@);
        assert(body@ =~= spec_body(conv@));
    }
    let length = dec_string(body.as_str().as_bytes().len());
    let mut request = String::from_str(
        "POST /v1/chat/completions HTTP/1.1\r\nHost: api.openai.com\r\nContent-Length: ",
    );
    request.append(length.as_str());
    request.append("\r\nContent-Type: application/json\r\nAuthorization: Bearer ");
    request.append(secret);
    request.append("\r\n\r\n");
    request.append(body.as_str());
    proof {
        assert(request@ =~= spec_request(conv@, secret@));
    }
    request
}

} // verus!

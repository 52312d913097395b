//! The conversation model: roles, the UI state, the events the streaming
//! worker delivers, and the layout of the conversation log into colored
//! display lines at the pane's width.

use crate::renderer::{spec_put_row, Buffer, Cell, Color, DEFAULT_FG};
use vstd::prelude::*;
use vstd::string::{StrSliceExecFns, StringExecFns};

verus! {

/// Who a conversation entry belongs to.
#[derive(Clone, Copy, Debug, PartialEq, Eq, Structural)]
pub enum Role {
    User,
    System,
    AI,
}

/// ASCII upper-case letters folded to lower case; everything else unchanged.
pub open spec fn ascii_lower(c: char) -> char {
    if 'A' <= c && c <= 'Z' {
        ((c as u8) + 32) as char
    } else {
        c
    }
}

/// `s` folded to ASCII lower case, character by character.
pub open spec fn spec_lowercase(s: Seq<char>) -> Seq<char> {
    s.map_values(|c: char| ascii_lower(c))
}

/// The role a wire name stands for, compared without regard to ASCII case.
pub open spec fn spec_role_from(s: Seq<char>) -> Option<Role> {
    if spec_lowercase(s) == "user"@ {
        Some(Role::User)
    } else if spec_lowercase(s) == "system"@ {
        Some(Role::System)
    } else if spec_lowercase(s) == "assistant"@ {
        Some(Role::AI)
    } else {
        None
    }
}

fn lower_char(c: char) -> (low: char)
    ensures
        low == ascii_lower(c),
{
    if 'A' <= c && c <= 'Z' {
        ((c as u8) + 32) as char
    } else {
        c
    }
}

/// Whether `s`, folded to ASCII lower case, reads as `t`.
fn eq_lowered(s: &str, t: &str) -> (same: bool)
    ensures
        same == (spec_lowercase(s@) == t@),
{
    let n = s.unicode_len();
    if n != t.unicode_len() {
        return false;
    }
    let mut i: usize = 0;
    while i < n
        invariant
            i <= n,
            n == s@.len(),
            n == t@.len(),
            forall|j: int| 0 <= j < i ==> ascii_lower(s@[j]) == t@[j],
        decreases n - i,
    {
        if lower_char(s.get_char(i)) != t.get_char(i) {
            return false;
        }
        i = i + 1;
    }
    proof {
        assert(spec_lowercase(s@) =~= t@);
    }
    true
}

impl Role {
    /// Parses a role name, in any ASCII casing; `None` for anything else.
    pub fn from(name: &str) -> (role: Option<Role>)
        ensures
            role == spec_role_from(name@),
    {
        if eq_lowered(name, "user") {
            Some(Role::User)
        } else if eq_lowered(name, "system") {
            Some(Role::System)
        } else if eq_lowered(name, "assistant") {
            Some(Role::AI)
        } else {
            None
        }
    }

    /// The wire name of the role.
    pub open spec fn spec_value(self) -> Seq<char> {
        match self {
            Role::User => "user"@,
            Role::System => "system"@,
            Role::AI => "assistant"@,
        }
    }

    pub fn value(&self) -> (name: &str)
        ensures
            name@ == self.spec_value(),
    {
        match self {
            Role::User => "user",
            Role::System => "system",
            Role::AI => "assistant",
        }
    }
}

/// The UI thread's state: the conversation log, the line being typed, and
/// how many display lines the view is scrolled up from the bottom.
pub struct State {
    pub conv: Vec<(Role, String)>,
    pub input: String,
    pub view_start: usize,
}

impl State {
    pub fn new() -> (state: State)
        ensures
            state.conv@ == Seq::<(Role, String)>::empty(),
            state.input@ == Seq::<char>::empty(),
            state.view_start == 0,
    {
        State { conv: Vec::new(), input: String::new(), view_start: 0 }
    }

    /// Appends one entry to the conversation log; entries are never deleted.
    pub fn append_conv(&mut self, role: Role, msg: String)
        ensures
            final(self).conv@ == old(self).conv@.push((role, msg)),
            final(self).input == old(self).input,
            final(self).view_start == old(self).view_start,
    {
        self.conv.push((role, msg));
    }
}

/// `s` cut into chunks of `length` characters; the last chunk carries the
/// remainder and may be shorter, and an empty `s` yields one empty chunk.
pub open spec fn spec_split_by_length(s: Seq<char>, length: int) -> Seq<Seq<char>>
    decreases s.len(),
{
    if length <= 0 || s.len() <= length {
        seq![s]
    } else {
        seq![s.take(length)] + spec_split_by_length(s.skip(length), length)
    }
}

/// Cuts `s` into display chunks of at most `length` characters each.
pub fn split_by_length<'a>(s: &'a str, length: usize) -> (parts: Vec<&'a str>)
    requires
        length > 0,
    ensures
        parts@.map_values(|p: &str| p@) == spec_split_by_length(s@, length as int),
{
    let n = s.unicode_len();
    let mut parts: Vec<&'a str> = Vec::new();
    let mut start: usize = 0;
    proof {
        assert(s@.skip(0) =~= s@);
        assert(parts@.map_values(|p: &str| p@) =~= Seq::<Seq<char>>::empty());
        assert(Seq::<Seq<char>>::empty() + spec_split_by_length(s@, length as int)
            =~= spec_split_by_length(s@, length as int));
    }
    while n - start > length
        invariant
            length > 0,
            start <= n,
            n == s@.len(),
            spec_split_by_length(s@, length as int) == parts@.map_values(|p: &str| p@)
                + spec_split_by_length(s@.skip(start as int), length as int),
        decreases n - start,
    {
        let part = s.substring_char(start, start + length);
        let ghost parts_prev = parts@;
        parts.push(part);
        proof {
            assert(parts@.map_values(|p: &str| p@) =~= parts_prev.map_values(|p: &str| p@).push(
                part@,
            ));
            assert(s@.skip(start as int).take(length as int) =~= part@);
            assert(s@.skip(start as int).skip(length as int) =~= s@.skip(
                start as int + length as int,
            ));
        }
        start = start + length;
    }
    let part = s.substring_char(start, n);
    let ghost parts_prev = parts@;
    parts.push(part);
    proof {
        assert(parts@.map_values(|p: &str| p@) =~= parts_prev.map_values(|p: &str| p@).push(
            part@,
        ));
        assert(s@.skip(start as int) =~= part@);
        assert(spec_split_by_length(part@, length as int) == seq![part@]);
        assert(parts@.map_values(|p: &str| p@) =~= spec_split_by_length(s@, length as int));
    }
    parts
}

/// What one event on the worker-to-UI channel is, with its content as
/// characters.
pub enum EventView {
    Start(Role),
    Content(Seq<char>),
    Done,
}

/// One event on the worker-to-UI channel: a lifecycle marker opening a new
/// entry for a role, one streamed content delta, or the terminal marker that
/// no further events will arrive.
#[derive(Clone, Debug)]
pub enum Event {
    Start(Role),
    Content(String),
    Done,
}

impl View for Event {
    type V = EventView;

    open spec fn view(&self) -> EventView {
        match self {
            Event::Start(role) => EventView::Start(*role),
            Event::Content(text) => EventView::Content(text@),
            Event::Done => EventView::Done,
        }
    }
}

/// The string an event travels as on the channel boundary.
pub open spec fn spec_encode_event(event: EventView) -> Seq<char> {
    match event {
        EventView::Start(role) => "[START] "@ + role.spec_value(),
        EventView::Content(text) => text,
        EventView::Done => "[DONE]"@,
    }
}

/// Encodes an event as the string-tagged form the channel boundary uses.
pub fn encode_event(event: &Event) -> (line: String)
    ensures
        line@ == spec_encode_event(event@),
{
    match event {
        Event::Start(role) => {
            let mut line = String::from_str("[START] ");
            line.append(role.value());
            line
        },
        Event::Content(text) => text.clone(),
        Event::Done => String::from_str("[DONE]"),
    }
}

/// Whether `s` equals `t` character for character.
fn str_eq(s: &str, t: &str) -> (same: bool)
    ensures
        same == (s@ == t@),
{
    let n = s.unicode_len();
    if n != t.unicode_len() {
        return false;
    }
    let mut i: usize = 0;
    while i < n
        invariant
            i <= n,
            n == s@.len(),
            n == t@.len(),
            forall|j: int| 0 <= j < i ==> s@[j] == t@[j],
        decreases n - i,
    {
        if s.get_char(i) != t.get_char(i) {
            return false;
        }
        i = i + 1;
    }
    proof {
        assert(s@ =~= t@);
    }
    true
}

/// Whether `s` begins with `prefix`.
fn str_starts_with(s: &str, prefix: &str) -> (starts: bool)
    ensures
        starts == (s@.len() >= prefix@.len() && s@.take(prefix@.len() as int) == prefix@),
{
    let n = s.unicode_len();
    let p = prefix.unicode_len();
    if n < p {
        return false;
    }
    let mut i: usize = 0;
    while i < p
        invariant
            i <= p <= n,
            n == s@.len(),
            p == prefix@.len(),
            forall|j: int| 0 <= j < i ==> s@[j] == prefix@[j],
        decreases p - i,
    {
        if s.get_char(i) != prefix.get_char(i) {
            proof {
                assert(s@.take(p as int)[i as int] != prefix@[i as int]);
            }
            return false;
        }
        i = i + 1;
    }
    proof {
        assert(s@.take(p as int) =~= prefix@);
    }
    true
}

/// The event a channel string stands for: the terminal marker, a start
/// marker naming a role, or — any other string — one content delta. A start
/// marker naming no known role stands for nothing.
pub open spec fn spec_parse_event(s: Seq<char>) -> Option<EventView> {
    if s == "[DONE]"@ {
        Some(EventView::Done)
    } else if s.len() >= "[START] "@.len() && s.take("[START] "@.len() as int) == "[START] "@ {
        match spec_role_from(s.skip("[START] "@.len() as int)) {
            Some(role) => Some(EventView::Start(role)),
            None => None,
        }
    } else {
        Some(EventView::Content(s))
    }
}

/// Decodes one string-tagged channel message back into an event.
pub fn parse_event(line: &str) -> (event: Option<Event>)
    ensures
        match event {
            Some(ev) => spec_parse_event(line@) == Some(ev@),
            None => spec_parse_event(line@) is None,
        },
{
    if str_eq(line, "[DONE]") {
        Some(Event::Done)
    } else if str_starts_with(line, "[START] ") {
        let p = "[START] ".unicode_len();
        let rest = line.substring_char(p, line.unicode_len());
        proof {
            assert(rest@ =~= line@.skip("[START] "@.len() as int));
        }
        match Role::from(rest) {
            Some(role) => Some(Event::Start(role)),
            None => None,
        }
    } else {
        Some(Event::Content(String::from_str(line)))
    }
}

/// Applies one received event to the UI state, once per frame tick: `Start`
/// opens a new empty entry for its role, content is appended onto the last
/// entry and snaps the view back to the bottom, and `Done` changes nothing
/// here but tells the caller to persist the conversation.
pub fn apply_event(state: &mut State, event: &Event) -> (save: bool)
    requires
        event@ is Content ==> old(state).conv@.len() > 0,
    ensures
        save == (event@ is Done),
        event@ is Done ==> *final(state) == *old(state),
        match event@ {
            EventView::Start(role) => {
                &&& final(state).conv@.len() == old(state).conv@.len() + 1
                &&& forall|i: int|
                    0 <= i < old(state).conv@.len() ==> #[trigger] final(state).conv@[i] == old(
                        state,
                    ).conv@[i]
                &&& final(state).conv@.last().0 == role
                &&& final(state).conv@.last().1@ == Seq::<char>::empty()
                &&& final(state).input == old(state).input
                &&& final(state).view_start == old(state).view_start
            },
            EventView::Content(text) => {
                &&& final(state).conv@.len() == old(state).conv@.len()
                &&& forall|i: int|
                    0 <= i < old(state).conv@.len() - 1 ==> #[trigger] final(state).conv@[i]
                        == old(state).conv@[i]
                &&& final(state).conv@.last().0 == old(state).conv@.last().0
                &&& final(state).conv@.last().1@ == old(state).conv@.last().1@ + text
                &&& final(state).input == old(state).input
                &&& final(state).view_start == 0
            },
            EventView::Done => true,
        },
{
    match event {
        Event::Done => true,
        Event::Start(role) => {
            state.append_conv(*role, String::new());
            false
        },
        Event::Content(text) => {
            let entry = state.conv.pop().unwrap();
            let (role, mut content) = entry;
            content.append(text.as_str());
            state.conv.push((role, content));
            state.view_start = 0;
            false
        },
    }
}

/// The index of the first newline in `s` at or after `from`; `s.len()` when
/// there is none.
pub open spec fn first_newline(s: Seq<char>, from: nat) -> nat
    decreases s.len() - from,
{
    if from >= s.len() {
        s.len()
    } else if s[from as int] == '\n' {
        from
    } else {
        first_newline(s, from + 1)
    }
}

proof fn lemma_first_newline_unique(s: Seq<char>, from: nat, i: nat)
    requires
        from <= i <= s.len(),
        i < s.len() ==> s[i as int] == '\n',
        forall|j: int| from <= j < i ==> s[j] != '\n',
    ensures
        first_newline(s, from) == i,
    decreases i - from,
{
    if from < i {
        lemma_first_newline_unique(s, from + 1, i);
    }
}

/// `s` split on newline characters; the separators are dropped, and both an
/// empty `s` and a trailing newline yield an empty final part.
pub open spec fn spec_split_newlines(s: Seq<char>) -> Seq<Seq<char>>
    decreases s.len(),
{
    let i = first_newline(s, 0);
    if i >= s.len() {
        seq![s]
    } else {
        seq![s.take(i as int)] + spec_split_newlines(s.skip(i as int + 1))
    }
}

/// Scans for the first newline at or after `start`; `n` when there is none.
fn find_newline(s: &str, start: usize, n: usize) -> (i: usize)
    requires
        n == s@.len(),
        start <= n,
    ensures
        start <= i <= n,
        i < n ==> s@[i as int] == '\n',
        forall|j: int| start <= j < i ==> s@[j] != '\n',
{
    let mut i = start;
    while i < n && s.get_char(i) != '\n'
        invariant
            start <= i <= n,
            n == s@.len(),
            forall|j: int| start <= j < i ==> s@[j] != '\n',
        decreases n - i,
    {
        i = i + 1;
    }
    i
}

/// Splits `s` at newline characters, dropping the separators.
pub fn split_newlines<'a>(s: &'a str) -> (parts: Vec<&'a str>)
    ensures
        parts@.map_values(|p: &str| p@) == spec_split_newlines(s@),
{
    let n = s.unicode_len();
    let mut parts: Vec<&'a str> = Vec::new();
    let mut start: usize = 0;
    proof {
        assert(s@.skip(0) =~= s@);
        assert(parts@.map_values(|p: &str| p@) =~= Seq::<Seq<char>>::empty());
        assert(Seq::<Seq<char>>::empty() + spec_split_newlines(s@) =~= spec_split_newlines(s@));
    }
    let mut i = find_newline(s, 0, n);
    while i < n
        invariant
            start <= i <= n,
            n == s@.len(),
            i < n ==> s@[i as int] == '\n',
            forall|j: int| start <= j < i ==> s@[j] != '\n',
            spec_split_newlines(s@) == parts@.map_values(|p: &str| p@) + spec_split_newlines(
                s@.skip(start as int),
            ),
        decreases n - start,
    {
        proof {
            let suffix = s@.skip(start as int);
            assert forall|j: int| 0 <= j < i - start implies suffix[j] != '\n' by {
                assert(suffix[j] == s@[start + j]);
            }
            assert(i < n ==> suffix[i - start] == s@[i as int]);
            lemma_first_newline_unique(suffix, 0, (i - start) as nat);
            assert(suffix.take(i - start) =~= s@.subrange(start as int, i as int));
            assert(suffix.skip(i - start + 1) =~= s@.skip(i as int + 1));
        }
        let part = s.substring_char(start, i);
        let ghost parts_prev = parts@;
        parts.push(part);
        proof {
            assert(parts@.map_values(|p: &str| p@) =~= parts_prev.map_values(|p: &str| p@).push(
                part@,
            ));
        }
        start = i + 1;
        i = find_newline(s, start, n);
    }
    proof {
        let suffix = s@.skip(start as int);
        assert forall|j: int| 0 <= j < suffix.len() implies suffix[j] != '\n' by {
            assert(suffix[j] == s@[start + j]);
        }
        lemma_first_newline_unique(suffix, 0, (n - start) as nat);
    }
    let part = s.substring_char(start, n);
    let ghost parts_prev = parts@;
    parts.push(part);
    proof {
        assert(s@.skip(start as int) =~= part@);
        assert(parts@.map_values(|p: &str| p@) =~= parts_prev.map_values(|p: &str| p@).push(
            part@,
        ));
        assert(parts@.map_values(|p: &str| p@) =~= spec_split_newlines(s@));
    }
    parts
}

/// Every newline-free part wrapped at `width`, in order.
pub open spec fn spec_wrap_parts(parts: Seq<Seq<char>>, width: int) -> Seq<Seq<char>>
    decreases parts.len(),
{
    if parts.len() == 0 {
        Seq::empty()
    } else {
        spec_split_by_length(parts[0], width) + spec_wrap_parts(parts.skip(1), width)
    }
}

/// The display lines of one entry's content: split at newlines, then each
/// part wrapped at `width`.
pub open spec fn spec_entry_lines(content: Seq<char>, width: int) -> Seq<Seq<char>> {
    spec_wrap_parts(spec_split_newlines(content), width)
}

/// The display lines of the whole conversation, top to bottom: each entry's
/// wrapped lines tagged with its role, the first line of each entry flagged.
pub open spec fn spec_conv_lines(conv: Seq<(Role, String)>, width: int) -> Seq<
    (bool, Role, Seq<char>),
>
    decreases conv.len(),
{
    if conv.len() == 0 {
        Seq::empty()
    } else {
        let el = spec_entry_lines(conv[0].1@, width);
        Seq::new(el.len(), |j: int| (j == 0, conv[0].0, el[j])) + spec_conv_lines(
            conv.skip(1),
            width,
        )
    }
}

proof fn lemma_wrap_parts_snoc(parts: Seq<Seq<char>>, part: Seq<char>, width: int)
    ensures
        spec_wrap_parts(parts.push(part), width) == spec_wrap_parts(parts, width)
            + spec_split_by_length(part, width),
    decreases parts.len(),
{
    if parts.len() == 0 {
        assert(parts.push(part)[0] == part);
        assert(parts.push(part).skip(1) =~= Seq::<Seq<char>>::empty());
        assert(spec_wrap_parts(parts.push(part).skip(1), width) == Seq::<Seq<char>>::empty());
        assert(spec_wrap_parts(parts.push(part), width) == spec_split_by_length(part, width)
            + Seq::<Seq<char>>::empty());
        assert(spec_split_by_length(part, width) + Seq::<Seq<char>>::empty()
            =~= spec_split_by_length(part, width));
        assert(spec_wrap_parts(parts, width) + spec_split_by_length(part, width)
            =~= spec_split_by_length(part, width));
    } else {
        assert(parts.push(part).skip(1) =~= parts.skip(1).push(part));
        assert(parts.push(part)[0] == parts[0]);
        lemma_wrap_parts_snoc(parts.skip(1), part, width);
        assert(spec_wrap_parts(parts.push(part), width) =~= spec_wrap_parts(parts, width)
            + spec_split_by_length(part, width));
    }
}

proof fn lemma_conv_lines_snoc(conv: Seq<(Role, String)>, entry: (Role, String), width: int)
    ensures
        spec_conv_lines(conv.push(entry), width) == spec_conv_lines(conv, width) + ({
            let el = spec_entry_lines(entry.1@, width);
            Seq::new(el.len(), |j: int| (j == 0, entry.0, el[j]))
        }),
    decreases conv.len(),
{
    if conv.len() == 0 {
        assert(conv.push(entry)[0] == entry);
        assert(conv.push(entry).skip(1) =~= Seq::<(Role, String)>::empty());
        assert(spec_conv_lines(conv.push(entry).skip(1), width) == Seq::<
            (bool, Role, Seq<char>),
        >::empty());
        let el = spec_entry_lines(entry.1@, width);
        assert(spec_conv_lines(conv.push(entry), width) == Seq::new(
            el.len(),
            |j: int| (j == 0, entry.0, el[j]),
        ) + Seq::<(bool, Role, Seq<char>)>::empty());
        assert(spec_conv_lines(conv.push(entry), width) =~= Seq::new(
            el.len(),
            |j: int| (j == 0, entry.0, el[j]),
        ));
        assert(spec_conv_lines(conv, width) + Seq::new(
            el.len(),
            |j: int| (j == 0, entry.0, el[j]),
        ) =~= Seq::new(el.len(), |j: int| (j == 0, entry.0, el[j])));
    } else {
        assert(conv.push(entry).skip(1) =~= conv.skip(1).push(entry));
        assert(conv.push(entry)[0] == conv[0]);
        lemma_conv_lines_snoc(conv.skip(1), entry, width);
        let el = spec_entry_lines(entry.1@, width);
        assert(spec_conv_lines(conv.push(entry), width) =~= spec_conv_lines(conv, width)
            + Seq::new(el.len(), |j: int| (j == 0, entry.0, el[j])));
    }
}

/// Lays the conversation out as display lines, top to bottom: each entry's
/// content split at newlines and wrapped at `width`, every line carrying the
/// entry's role, and the entry's first line flagged (it is drawn with the
/// start marker).
pub fn conversation_lines(conv: &Vec<(Role, String)>, width: usize) -> (lines: Vec<
    (bool, Role, String),
>)
    requires
        width > 0,
    ensures
        lines@.map_values(|l: (bool, Role, String)| (l.0, l.1, l.2@)) == spec_conv_lines(
            conv@,
            width as int,
        ),
{
    let ghost lmap = |l: (bool, Role, String)| (l.0, l.1, l.2@);
    let mut lines: Vec<(bool, Role, String)> = Vec::new();
    let mut e: usize = 0;
    proof {
        assert(conv@.take(0) =~= Seq::<(Role, String)>::empty());
        assert(lines@.map_values(lmap) =~= spec_conv_lines(conv@.take(0), width as int));
    }
    while e < conv.len()
        invariant
            width > 0,
            e <= conv@.len(),
            lmap == (|l: (bool, Role, String)| (l.0, l.1, l.2@)),
            lines@.map_values(lmap) == spec_conv_lines(conv@.take(e as int), width as int),
        decreases conv@.len() - e,
    {
        let role = conv[e].0;
        let content = &conv[e].1;
        let parts = split_newlines(content.as_str());
        let ghost pmap = parts@.map_values(|p: &str| p@);
        let base = lines.len();
        let ghost lines_base = lines@.map_values(lmap);
        let mut p: usize = 0;
        proof {
            assert(pmap.take(0) =~= Seq::<Seq<char>>::empty());
            let w = spec_wrap_parts(pmap.take(0), width as int);
            assert(lines@.map_values(lmap) =~= lines_base + Seq::new(
                w.len(),
                |j: int| (j == 0, role, w[j]),
            ));
        }
        while p < parts.len()
            invariant
                width > 0,
                p <= parts@.len(),
                base <= lines@.len(),
                lmap == (|l: (bool, Role, String)| (l.0, l.1, l.2@)),
                pmap == parts@.map_values(|q: &str| q@),
                lines_base == lines@.map_values(lmap).take(base as int),
                ({
                    let w = spec_wrap_parts(pmap.take(p as int), width as int);
                    lines@.map_values(lmap) == lines_base + Seq::new(
                        w.len(),
                        |j: int| (j == 0, role, w[j]),
                    )
                }),
            decreases parts@.len() - p,
        {
            let chunks = split_by_length(parts[p], width);
            let ghost cmap = chunks@.map_values(|q: &str| q@);
            let ghost w_before = spec_wrap_parts(pmap.take(p as int), width as int);
            let mut q: usize = 0;
            proof {
                assert(cmap.take(0) =~= Seq::<Seq<char>>::empty());
                assert(w_before + cmap.take(0) =~= w_before);
            }
            while q < chunks.len()
                invariant
                    q <= chunks@.len(),
                    base <= lines@.len(),
                    lmap == (|l: (bool, Role, String)| (l.0, l.1, l.2@)),
                    cmap == chunks@.map_values(|t: &str| t@),
                    lines_base == lines@.map_values(lmap).take(base as int),
                    ({
                        let w = w_before + cmap.take(q as int);
                        lines@.map_values(lmap) == lines_base + Seq::new(
                            w.len(),
                            |j: int| (j == 0, role, w[j]),
                        )
                    }),
                decreases chunks@.len() - q,
            {
                let first = lines.len() == base;
                let text = String::from_str(chunks[q]);
                let ghost lines_prev = lines@.map_values(lmap);
                lines.push((first, role, text));
                proof {
                    assert(lines@.map_values(lmap) =~= lines_prev.push((first, role, text@)));
                    let w = w_before + cmap.take(q as int);
                    let w2 = w_before + cmap.take(q + 1);
                    assert(cmap.take(q + 1) =~= cmap.take(q as int).push(cmap[q as int]));
                    assert(w2 =~= w.push(cmap[q as int]));
                    assert(text@ == cmap[q as int]);
                    assert(lines@.map_values(lmap) =~= lines_base + Seq::new(
                        w2.len(),
                        |j: int| (j == 0, role, w2[j]),
                    ));
                    assert(lines_base =~= lines@.map_values(lmap).take(base as int));
                }
                q = q + 1;
            }
            proof {
                assert(cmap.take(cmap.len() as int) =~= cmap);
                assert(pmap.take(p + 1) =~= pmap.take(p as int).push(pmap[p as int]));
                lemma_wrap_parts_snoc(pmap.take(p as int), pmap[p as int], width as int);
                assert(parts@[p as int]@ == pmap[p as int]);
                assert(w_before + cmap =~= spec_wrap_parts(pmap.take(p + 1), width as int));
            }
            p = p + 1;
        }
        proof {
            assert(pmap.take(pmap.len() as int) =~= pmap);
            assert(conv@.take(e + 1) =~= conv@.take(e as int).push(conv@[e as int]));
            lemma_conv_lines_snoc(conv@.take(e as int), conv@[e as int], width as int);
            assert(content@ == conv@[e as int].1@);
            assert(role == conv@[e as int].0);
            let el = spec_entry_lines(conv@[e as int].1@, width as int);
            assert(el == spec_wrap_parts(pmap, width as int));
            assert(lines@.map_values(lmap) =~= spec_conv_lines(conv@.take(e + 1), width as int));
        }
        e = e + 1;
    }
    proof {
        assert(conv@.take(conv@.len() as int) =~= conv@);
    }
    lines
}

pub const AI_COLOR: Color = Color::Blue;

pub const INPUT_COLOR: Color = DEFAULT_FG;

pub const SYSTEM_COLOR: Color = Color::Red;

pub const USER_COLOR: Color = Color::Green;

/// The color an entry's lines are drawn in, by role.
pub open spec fn spec_role_color(role: Role) -> Color {
    match role {
        Role::AI => AI_COLOR,
        Role::User => USER_COLOR,
        Role::System => SYSTEM_COLOR,
    }
}

pub fn role_color(role: Role) -> (color: Color)
    ensures
        color == spec_role_color(role),
{
    match role {
        Role::AI => AI_COLOR,
        Role::User => USER_COLOR,
        Role::System => SYSTEM_COLOR,
    }
}

/// The marker drawn before the first line of every entry.
pub open spec fn spec_start_prefix() -> Seq<char> {
    seq!['\u{25a0}', ' ', ' ']
}

/// The characters a display line is drawn with: the entry's first line gets
/// the start marker, every other line its bare text.
pub open spec fn spec_line_text(line: (bool, Role, Seq<char>)) -> Seq<char> {
    if line.0 {
        spec_start_prefix() + line.2
    } else {
        line.2
    }
}

/// How the scroll offset is clamped before a frame is drawn: no offset when
/// everything fits, and never further up than the top of the log.
pub open spec fn spec_clamp_view(count: int, height: int, view_start: int) -> int {
    if count <= height {
        0
    } else if count - view_start < height {
        count - height
    } else {
        view_start
    }
}

/// What drawing the conversation leaves row `r` as: the pane is filled
/// bottom-up from `row`, the display line `vs` lines above the log's bottom
/// standing on `row` itself; rows above the log's top and rows below `row`
/// keep their contents.
pub open spec fn spec_rendered_row(
    old_row: Seq<Cell>,
    lines: Seq<(bool, Role, Seq<char>)>,
    vs: int,
    row: int,
    r: int,
) -> Seq<Cell> {
    let idx = lines.len() - 1 - vs - (row - r);
    if 0 <= r <= row && 0 <= idx < lines.len() {
        spec_put_row(
            old_row,
            Some(spec_role_color(lines[idx].1)),
            None,
            spec_line_text(lines[idx]),
        )
    } else {
        old_row
    }
}

/// Draws the conversation log into the buffer, bottom-up from `row`, the
/// content wrapped at `width` and each entry colored by role, after
/// clamping the scroll offset against the pane height `height`.
pub fn render_conversation(
    state: &mut State,
    buffer: &mut Buffer,
    row: usize,
    height: usize,
    width: usize,
)
    requires
        old(buffer).wf(),
        row < old(buffer).height,
        width > 0,
    ensures
        final(buffer).wf(),
        final(buffer).width == old(buffer).width,
        final(buffer).height == old(buffer).height,
        final(state).conv == old(state).conv,
        final(state).input == old(state).input,
        final(state).view_start == spec_clamp_view(
            spec_conv_lines(old(state).conv@, width as int).len() as int,
            height as int,
            old(state).view_start as int,
        ),
        forall|r: int|
            0 <= r < old(buffer).height ==> #[trigger] final(buffer)@[r] == spec_rendered_row(
                old(buffer)@[r],
                spec_conv_lines(old(state).conv@, width as int),
                final(state).view_start as int,
                row as int,
                r,
            ),
{
    let lines = conversation_lines(&state.conv, width);
    let ghost lmap = |l: (bool, Role, String)| (l.0, l.1, l.2@);
    let ghost slines = spec_conv_lines(state.conv@, width as int);
    let total = lines.len();
    if total <= height {
        state.view_start = 0;
    } else if total - height < state.view_start {
        state.view_start = total - height;
    }
    let vs = state.view_start;
    proof {
        assert(vs <= total);
    }
    let mut k: usize = 0;
    while k <= row && k < total - vs
        invariant
            buffer.wf(),
            buffer.width == old(buffer).width,
            buffer.height == old(buffer).height,
            row < buffer.height,
            state.conv == old(state).conv,
            state.input == old(state).input,
            state.view_start == vs,
            lines@.map_values(lmap) == slines,
            lmap == (|l: (bool, Role, String)| (l.0, l.1, l.2@)),
            slines == spec_conv_lines(old(state).conv@, width as int),
            total == slines.len(),
            vs <= total,
            k <= row + 1,
            vs + k <= total,
            forall|rr: int|
                row - k < rr <= row ==> #[trigger] buffer@[rr] == spec_rendered_row(
                    old(buffer)@[rr],
                    slines,
                    vs as int,
                    row as int,
                    rr,
                ),
            forall|rr: int|
                0 <= rr < buffer.height && !(row - k < rr <= row) ==> #[trigger] buffer@[rr]
                    == old(buffer)@[rr],
        decreases row + 1 - k,
    {
        let idx = total - vs - k - 1;
        let cur_row = row - k;
        let first = lines[idx].0;
        let color = role_color(lines[idx].1);
        proof {
            assert(slines[idx as int] == lmap(lines@[idx as int]));
        }
        let text: String = if first {
            let mut prefixed = String::from_str("\u{25a0}  ");
            prefixed.append(lines[idx].2.as_str());
            proof {
                reveal_strlit("\u{25a0}  ");
                assert("\u{25a0}  "@ =~= spec_start_prefix());
            }
            prefixed
        } else {
            lines[idx].2.clone()
        };
        proof {
            assert(text@ == spec_line_text(slines[idx as int]));
        }
        let ghost row_before = buffer@[cur_row as int];
        buffer.put_line(cur_row, Some(color), None, text.as_str());
        proof {
            assert(row_before == old(buffer)@[cur_row as int]);
            assert(buffer@[cur_row as int] == spec_rendered_row(
                old(buffer)@[cur_row as int],
                slines,
                vs as int,
                row as int,
                cur_row as int,
            ));
        }
        k = k + 1;
    }
    proof {
        assert forall|r: int| 0 <= r < old(buffer).height implies #[trigger] buffer@[r]
            == spec_rendered_row(
            old(buffer)@[r],
            slines,
            vs as int,
            row as int,
            r,
        ) by {
            if !(row - k < r <= row) {
                let idx = slines.len() - 1 - vs - (row - r);
                assert(!(0 <= r <= row && 0 <= idx < slines.len()));
            }
        }
    }
}

} // verus!

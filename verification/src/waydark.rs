//! The `waydark` dimming daemon: its outputs, the requests it answers, and
//! what its clients make of the replies.
use vstd::prelude::*;

use crate::protocol::{check_reply, expect_ok, spec_ok_reply, spec_reply_error, Field, ResponseError};
use crate::text::{
    int_error, int_error_range,
    chars_eq, chars_of, decimal, decimal_signed, find_char, find_char_exec, is_digit, is_space,
    join_lines, lemma_decimal, lemma_find_char_bounds, lemma_find_char_none, lemma_find_char_shift,
    lemma_find_char_skip, lemma_lines_join, lemma_parse_decimal, lines, no_char, parse_unsigned,
    parse_unsigned_range, push_char, push_chars, push_decimal, push_decimal_signed, push_str,
    slice_vec, split_lines, split_words, string_of, trim, trim_bounds, words,
};
use crate::waydim::{
    error_reply, error_text, is_word, lemma_get_reply_roundtrip, lemma_get_request_words,
    lemma_set_request_words, prepend, spec_get_reply,
};

verus! {

/// An output and its software brightness, as the daemon lists it.
#[derive(Clone, Debug, PartialEq, Eq)]
pub struct OutputBrightness {
    pub name: String,
    pub brightness: u8,
    pub label: String,
}

/// A listed output, its texts taken by their characters.
pub struct OutputRecord {
    pub name: Seq<char>,
    pub brightness: u8,
    pub label: Seq<char>,
}

impl View for OutputBrightness {
    type V = OutputRecord;

    open spec fn view(&self) -> OutputRecord {
        OutputRecord { name: self.name@, brightness: self.brightness, label: self.label@ }
    }
}

pub open spec fn output_records(os: Seq<OutputBrightness>) -> Seq<OutputRecord> {
    os.map_values(|o: OutputBrightness| o@)
}

/// `str::splitn(3, '\t')`: up to three pieces, the last holding any further tabs.
pub open spec fn split3(line: Seq<char>) -> Seq<Seq<char>> {
    let k1 = find_char(line, '\t', 0);
    if k1 >= line.len() {
        seq![line]
    } else {
        let k2 = find_char(line, '\t', k1 + 1);
        if k2 >= line.len() {
            seq![line.subrange(0, k1), line.subrange(k1 + 1, line.len() as int)]
        } else {
            seq![
                line.subrange(0, k1),
                line.subrange(k1 + 1, k2),
                line.subrange(k2 + 1, line.len() as int),
            ]
        }
    }
}

/// What a listing line reads as.
pub open spec fn spec_parse_output_line(line: Seq<char>) -> Result<OutputRecord, ResponseError> {
    let f = split3(line);
    if f.len() < 2 {
        Err(ResponseError::Missing(Field::Brightness))
    } else {
        match parse_unsigned(f[1], 255) {
            None => Err(ResponseError::InvalidNumber(int_error(f[1], 0, 255))),
            Some(b) => if f.len() < 3 {
                Err(ResponseError::Missing(Field::OutputLabel))
            } else {
                Ok(OutputRecord { name: f[0], brightness: b as u8, label: f[2] })
            },
        }
    }
}

/// Every line's output, or the error of the first line that does not read.
pub open spec fn spec_parse_output_lines(ls: Seq<Seq<char>>) -> Result<Seq<OutputRecord>, ResponseError>
    decreases ls.len(),
{
    if ls.len() == 0 {
        Ok(Seq::empty())
    } else {
        match spec_parse_output_lines(ls.drop_last()) {
            Err(e) => Err(e),
            Ok(rs) => match spec_parse_output_line(ls.last()) {
                Ok(r) => Ok(rs.push(r)),
                Err(e) => Err(e),
            },
        }
    }
}

/// What a `LIST` reply reads as.
pub open spec fn spec_parse_output_brightness_response(response: Seq<char>) -> Result<
    Seq<OutputRecord>,
    ResponseError,
> {
    spec_parse_output_lines(lines(response))
}

fn parse_output_line(line: &Vec<char>) -> (r: Result<OutputBrightness, ResponseError>)
    ensures
        match r {
            Ok(o) => spec_parse_output_line(line@) == Ok::<OutputRecord, ResponseError>(o@),
            Err(e) => spec_parse_output_line(line@) == Err::<OutputRecord, ResponseError>(e),
        },
{
    let k1 = find_char_exec(line, '\t', 0);
    proof {
        lemma_find_char_bounds(line@, '\t', 0);
    }
    if k1 >= line.len() {
        return Err(ResponseError::Missing(Field::Brightness));
    }
    let k2 = find_char_exec(line, '\t', k1 + 1);
    proof {
        lemma_find_char_bounds(line@, '\t', k1 + 1);
    }
    let b = match parse_unsigned_range(line, k1 + 1, k2, 255) {
        Some(b) => b,
        None => return Err(ResponseError::InvalidNumber(int_error_range(line, k1 + 1, k2, 0, 255))),
    };
    if k2 >= line.len() {
        return Err(ResponseError::Missing(Field::OutputLabel));
    }
    let name = slice_vec(line, 0, k1);
    let label = slice_vec(line, k2 + 1, line.len());
    Ok(OutputBrightness { name: string_of(&name), brightness: b as u8, label: string_of(&label) })
}

/// Reads the outputs of a `LIST` reply, one per line.
pub fn parse_output_brightness_response(response: &str) -> (r: Result<
    Vec<OutputBrightness>,
    ResponseError,
>)
    ensures
        match r {
            Ok(os) => spec_parse_output_brightness_response(response@) == Ok::<
                Seq<OutputRecord>,
                ResponseError,
            >(output_records(os@)),
            Err(e) => spec_parse_output_brightness_response(response@) == Err::<
                Seq<OutputRecord>,
                ResponseError,
            >(e),
        },
{
    let v = chars_of(response);
    let ls = split_lines(&v);
    let ghost sl = lines(response@);
    let mut out: Vec<OutputBrightness> = Vec::new();
    assert(sl.take(0) =~= Seq::<Seq<char>>::empty());
    assert(output_records(out@) =~= Seq::<OutputRecord>::empty());
    let mut i: usize = 0;
    while i < ls.len()
        invariant
            sl == lines(response@),
            ls@.len() == sl.len(),
            forall|k: int| 0 <= k < ls@.len() ==> (#[trigger] ls@[k])@ == sl[k],
            i <= ls@.len(),
            spec_parse_output_lines(sl.take(i as int)) == Ok::<Seq<OutputRecord>, ResponseError>(
                output_records(out@),
            ),
        decreases ls@.len() - i,
    {
        assert(sl.take(i + 1).drop_last() =~= sl.take(i as int));
        assert(sl.take(i + 1).last() == ls@[i as int]@);
        match parse_output_line(&ls[i]) {
            Ok(o) => {
                let ghost prev = out@;
                out.push(o);
                assert(output_records(out@) =~= output_records(prev).push(o@));
            },
            Err(e) => {
                proof {
                    assert(spec_parse_output_lines(sl.take(i + 1)) == Err::<
                        Seq<OutputRecord>,
                        ResponseError,
                    >(e));
                    lemma_output_lines_error_persists(sl, i as int + 1);
                }
                return Err(e);
            },
        }
        i = i + 1;
    }
    assert(sl.take(i as int) =~= sl);
    Ok(out)
}

proof fn lemma_output_lines_error_persists(ls: Seq<Seq<char>>, k: int)
    requires
        0 <= k <= ls.len(),
        spec_parse_output_lines(ls.take(k)) is Err,
    ensures
        spec_parse_output_lines(ls) == spec_parse_output_lines(ls.take(k)),
    decreases ls.len() - k,
{
    if k < ls.len() {
        assert(ls.take(k + 1).drop_last() =~= ls.take(k));
        lemma_output_lines_error_persists(ls, k + 1);
    } else {
        assert(ls.take(k) =~= ls);
    }
}

// ---------------------------------------------------------------------------
// The client
// ---------------------------------------------------------------------------

/// Reads the reply to `LIST`: the outputs, or the error the daemon reported.
pub fn daemon_list_outputs(response: &str) -> (r: Result<Vec<OutputBrightness>, ResponseError>)
    ensures
        match spec_reply_error(response@) {
            Some(m) => r matches Err(ResponseError::Daemon(e)) && e@ == m,
            None => match r {
                Ok(os) => spec_parse_output_brightness_response(response@) == Ok::<
                    Seq<OutputRecord>,
                    ResponseError,
                >(output_records(os@)),
                Err(e) => spec_parse_output_brightness_response(response@) == Err::<
                    Seq<OutputRecord>,
                    ResponseError,
                >(e),
            },
        },
{
    check_reply(response)?;
    parse_output_brightness_response(response)
}

/// Reads the reply to `GET <name>`: the output's software brightness.
pub fn daemon_get_brightness(response: &str) -> (r: Result<u8, ResponseError>)
    ensures
        match spec_reply_error(response@) {
            Some(m) => r matches Err(ResponseError::Daemon(e)) && e@ == m,
            None => match parse_unsigned(trim(response@), 255) {
                Some(b) => r == Ok::<u8, ResponseError>(b as u8),
                None => r == Err::<u8, ResponseError>(
                    ResponseError::InvalidNumber(int_error(trim(response@), 0, 255)),
                ),
            },
        },
{
    check_reply(response)?;
    let v = chars_of(response);
    let (b, e) = trim_bounds(&v);
    match parse_unsigned_range(&v, b, e, 255) {
        Some(x) => Ok(x as u8),
        None => Err(ResponseError::InvalidNumber(int_error_range(&v, b, e, 0, 255))),
    }
}

/// Reads the reply to `SET <name> <brightness>`, which is `OK` on success.
pub fn daemon_set_brightness(response: &str) -> (r: Result<(), ResponseError>)
    ensures
        match spec_ok_reply(response@) {
            Ok(()) => r is Ok,
            Err(m) => r matches Err(ResponseError::Daemon(e)) && e@ == m,
        },
{
    expect_ok(response)
}

// ---------------------------------------------------------------------------
// The daemon's outputs
// ---------------------------------------------------------------------------

/// What the compositor told of an output, and its dimming.
#[derive(Clone, Debug)]
pub struct OutputInfo {
    pub name: Option<String>,
    pub description: Option<String>,
    pub make: Option<String>,
    pub model: Option<String>,
    pub mode: Option<(i32, i32)>,
    pub scale: i32,
    pub brightness: u8,
}

/// The name of output number `index`: its name, else its model, else `output-<index>`.
pub open spec fn spec_output_name(o: OutputInfo, index: nat) -> Seq<char> {
    match o.name {
        Some(n) => n@,
        None => match o.model {
            Some(m) => m@,
            None => "output-"@ + decimal(index),
        },
    }
}

/// The label of output number `index`:
/// `<name>: <description> (<w>x<h>, scale <s>)`, or without the mode when it is unknown.
pub open spec fn spec_output_label(o: OutputInfo, index: nat) -> Seq<char> {
    let description = match o.description {
        Some(d) => d@,
        None => match o.model {
            Some(m) => m@,
            None => "unknown output"@,
        },
    };
    let head = spec_output_name(o, index) + ": "@ + description;
    match o.mode {
        Some((w, h)) => head + " ("@ + decimal_signed(w as int) + "x"@ + decimal_signed(h as int)
            + ", scale "@ + decimal_signed(o.scale as int) + ")"@,
        None => head + " (scale "@ + decimal_signed(o.scale as int) + ")"@,
    }
}

impl OutputInfo {
    /// A newly announced output: nothing known yet, at full brightness.
    pub fn new() -> (o: Self)
        ensures
            o.name is None && o.description is None && o.make is None && o.model is None
                && o.mode is None && o.scale == 1 && o.brightness == 100,
    {
        OutputInfo {
            name: None,
            description: None,
            make: None,
            model: None,
            mode: None,
            scale: 1,
            brightness: 100,
        }
    }

    /// The output's name, as listed by the daemon.
    pub fn name(&self, index: usize) -> (r: String)
        ensures
            r@ == spec_output_name(*self, index as nat),
    {
        match &self.name {
            Some(n) => n.clone(),
            None => match &self.model {
                Some(m) => m.clone(),
                None => {
                    let mut s = String::new();
                    push_str(&mut s, "output-");
                    push_decimal(&mut s, index as u64);
                    s
                },
            },
        }
    }

    /// The output's label, as listed by the daemon.
    pub fn label(&self, index: usize) -> (r: String)
        ensures
            r@ == spec_output_label(*self, index as nat),
    {
        let mut s = self.name(index);
        push_str(&mut s, ": ");
        match &self.description {
            Some(d) => push_str(&mut s, d.as_str()),
            None => match &self.model {
                Some(m) => push_str(&mut s, m.as_str()),
                None => push_str(&mut s, "unknown output"),
            },
        }
        match self.mode {
            Some((w, h)) => {
                push_str(&mut s, " (");
                push_decimal_signed(&mut s, w as i64);
                push_str(&mut s, "x");
                push_decimal_signed(&mut s, h as i64);
                push_str(&mut s, ", scale ");
                push_decimal_signed(&mut s, self.scale as i64);
                push_str(&mut s, ")");
            },
            None => {
                push_str(&mut s, " (scale ");
                push_decimal_signed(&mut s, self.scale as i64);
                push_str(&mut s, ")");
            },
        }
        s
    }
}

/// An event the compositor sends about an output.
#[derive(Clone, Debug)]
pub enum OutputEvent {
    Geometry { make: String, model: String },
    Mode { width: i32, height: i32 },
    Scale { factor: i32 },
    Name { name: String },
    Description { description: String },
    Other,
}

impl OutputInfo {
    /// Takes what an event tells about the output.
    pub fn apply_event(&mut self, event: OutputEvent)
        ensures
            match event {
                OutputEvent::Geometry { make, model } => *final(self) == (OutputInfo {
                    make: Some(make),
                    model: Some(model),
                    ..*old(self)
                }),
                OutputEvent::Mode { width, height } => *final(self) == (OutputInfo {
                    mode: Some((width, height)),
                    ..*old(self)
                }),
                OutputEvent::Scale { factor } => *final(self) == (OutputInfo {
                    scale: factor,
                    ..*old(self)
                }),
                OutputEvent::Name { name } => *final(self) == (OutputInfo {
                    name: Some(name),
                    ..*old(self)
                }),
                OutputEvent::Description { description } => *final(self) == (OutputInfo {
                    description: Some(description),
                    ..*old(self)
                }),
                OutputEvent::Other => *final(self) == *old(self),
            },
    {
        match event {
            OutputEvent::Geometry { make, model } => {
                self.make = Some(make);
                self.model = Some(model);
            },
            OutputEvent::Mode { width, height } => {
                self.mode = Some((width, height));
            },
            OutputEvent::Scale { factor } => {
                self.scale = factor;
            },
            OutputEvent::Name { name } => {
                self.name = Some(name);
            },
            OutputEvent::Description { description } => {
                self.description = Some(description);
            },
            OutputEvent::Other => {},
        }
    }
}

/// The index of the first output listed under `name`.
#[verifier::opaque]
pub open spec fn spec_output_index(outputs: Seq<OutputInfo>, name: Seq<char>) -> Option<int> {
    if exists|i: int| 0 <= i < outputs.len() && spec_output_name(outputs[i], i as nat) == name {
        Some(
            choose|i: int|
                0 <= i < outputs.len() && spec_output_name(outputs[i], i as nat) == name && forall|
                    j: int,
                | 0 <= j < i ==> spec_output_name(outputs[j], j as nat) != name,
        )
    } else {
        None
    }
}

/// The daemon's outputs, in the order the compositor announced them.
pub struct OutputTable {
    pub outputs: Vec<OutputInfo>,
}

/// What the daemon does for a request.
#[derive(Debug)]
pub enum DarkCommand {
    /// Send this reply.
    Reply(String),
    /// Set these outputs to `brightness` one after the other, redrawing
    /// each overlay, then reply `OK` (or the first failure).
    Dim { indices: Vec<usize>, brightness: u8 },
}

/// The outcome of a request, as a reply or the outputs to dim.
pub enum DarkSpec {
    Reply(Seq<char>),
    Dim(Seq<int>, u8),
}

/// The `LIST` reply: `<name>\t<brightness>\t<label>` per output.
#[verifier::opaque]
pub open spec fn spec_output_lines(outputs: Seq<OutputInfo>) -> Seq<Seq<char>> {
    Seq::new(
        outputs.len(),
        |i: int|
            spec_output_name(outputs[i], i as nat) + seq!['\t'] + decimal(
                outputs[i].brightness as nat,
            ) + seq!['\t'] + spec_output_label(outputs[i], i as nat),
    )
}

pub open spec fn no_output_message(name: Seq<char>) -> Seq<char> {
    "no output named "@ + name
}

/// What the daemon does for a request, given its outputs.
pub open spec fn spec_dark_request(request: Seq<char>, outputs: Seq<OutputInfo>) -> DarkSpec {
    let w = words(request);
    if w.len() == 0 {
        DarkSpec::Reply("ERR empty request\n"@)
    } else if w[0] == "LIST"@ {
        DarkSpec::Reply(join_lines(spec_output_lines(outputs)))
    } else if w[0] == "GET"@ {
        if w.len() < 2 {
            DarkSpec::Reply("ERR missing output name\n"@)
        } else {
            match spec_output_index(outputs, w[1]) {
                Some(i) => DarkSpec::Reply(decimal(outputs[i].brightness as nat) + seq!['\n']),
                None => DarkSpec::Reply(error_reply(no_output_message(w[1]))),
            }
        }
    } else if w[0] == "SET"@ {
        if w.len() < 2 {
            DarkSpec::Reply("ERR missing output name\n"@)
        } else if w.len() < 3 || parse_unsigned(w[2], 255) is None {
            DarkSpec::Reply("ERR missing brightness\n"@)
        } else if parse_unsigned(w[2], 255).unwrap() > 100 {
            DarkSpec::Reply("ERR brightness must be between 0 and 100\n"@)
        } else if w[1] == "@all"@ {
            DarkSpec::Dim(
                Seq::new(outputs.len(), |i: int| i),
                parse_unsigned(w[2], 255).unwrap() as u8,
            )
        } else {
            match spec_output_index(outputs, w[1]) {
                Some(i) => DarkSpec::Dim(seq![i], parse_unsigned(w[2], 255).unwrap() as u8),
                None => DarkSpec::Reply(error_reply(no_output_message(w[1]))),
            }
        }
    } else {
        DarkSpec::Reply(error_reply("unknown command "@ + w[0]))
    }
}

fn word_is(v: &Vec<char>, word: &str) -> (r: bool)
    ensures
        r == (v@ == word@),
{
    let w = chars_of(word);
    chars_eq(v, &w)
}

fn no_output_reply(name: &Vec<char>) -> (r: String)
    ensures
        r@ == error_reply(no_output_message(name@)),
{
    let mut s = String::new();
    push_str(&mut s, "ERR ");
    push_str(&mut s, "no output named ");
    push_chars(&mut s, name);
    push_char(&mut s, '\n');
    assert(s@ =~= error_reply(no_output_message(name@)));
    s
}

impl OutputTable {
    /// The first output listed under `name`.
    pub fn output_index(&self, name: &Vec<char>) -> (r: Option<usize>)
        ensures
            match r {
                Some(i) => i < self.outputs@.len() && spec_output_index(self.outputs@, name@) == Some(
                    i as int,
                ),
                None => spec_output_index(self.outputs@, name@) is None,
            },
    {
        let mut i: usize = 0;
        while i < self.outputs.len()
            invariant
                i <= self.outputs@.len(),
                forall|j: int|
                    0 <= j < i ==> spec_output_name(self.outputs@[j], j as nat) != name@,
            decreases self.outputs@.len() - i,
        {
            let n = self.outputs[i].name(i);
            let nv = chars_of(n.as_str());
            if chars_eq(&nv, name) {
                proof {
                    reveal(spec_output_index);
                    let outs = self.outputs@;
                    assert(spec_output_name(outs[i as int], i as nat) == name@);
                    assert(forall|j: int|
                        0 <= j < i ==> spec_output_name(outs[j], j as nat) != name@);
                    let c = spec_output_index(outs, name@).unwrap();
                    assert(0 <= c < outs.len() && spec_output_name(outs[c], c as nat) == name@
                        && forall|j: int| 0 <= j < c ==> spec_output_name(outs[j], j as nat) != name@);
                    if c < i {
                        assert(spec_output_name(outs[c], c as nat) != name@);
                    } else if c > i {
                        assert(spec_output_name(outs[i as int], i as nat) != name@);
                    }
                }
                return Some(i);
            }
            i = i + 1;
        }
        proof {
            reveal(spec_output_index);
        }
        None
    }

    /// Sets output `index`'s brightness.
    pub fn set_output_brightness(&mut self, index: usize, brightness: u8)
        requires
            index < old(self).outputs@.len(),
        ensures
            final(self).outputs@ == old(self).outputs@.update(
                index as int,
                OutputInfo { brightness, ..old(self).outputs@[index as int] },
            ),
    {
        let mut outputs: Vec<OutputInfo> = Vec::new();
        std::mem::swap(&mut outputs, &mut self.outputs);
        let ghost before = outputs@;
        let mut o = outputs.remove(index);
        o.brightness = brightness;
        outputs.insert(index, o);
        assert(outputs@ =~= before.update(index as int, OutputInfo { brightness, ..before[index as int] }));
        self.outputs = outputs;
    }

    /// The `LIST` reply.
    fn list_reply(&self) -> (s: String)
        ensures
            s@ == join_lines(spec_output_lines(self.outputs@)),
    {
        let mut s = String::new();
        let mut i: usize = 0;
        let ghost ls = spec_output_lines(self.outputs@);
        proof {
            reveal(spec_output_lines);
        }
        while i < self.outputs.len()
            invariant
                i <= self.outputs@.len(),
                ls == spec_output_lines(self.outputs@),
                s@ == join_lines(ls.take(i as int)),
            decreases self.outputs@.len() - i,
        {
            let o = &self.outputs[i];
            let ghost before = s@;
            let n = o.name(i);
            push_str(&mut s, n.as_str());
            push_char(&mut s, '\t');
            push_decimal(&mut s, o.brightness as u64);
            push_char(&mut s, '\t');
            let l = o.label(i);
            push_str(&mut s, l.as_str());
            push_char(&mut s, '\n');
            proof {
                reveal(spec_output_lines);
                crate::text::lemma_join_lines_push(ls.take(i as int), ls[i as int]);
                assert(ls.take(i + 1) =~= ls.take(i as int).push(ls[i as int]));
                assert(s@ =~= before + ls[i as int] + seq!['\n']);
            }
            i = i + 1;
        }
        assert(ls.take(i as int) =~= ls);
        s
    }

    /// The indices of all outputs.
    fn all_indices(&self) -> (r: Vec<usize>)
        ensures
            r@.len() == self.outputs@.len(),
            forall|k: int| 0 <= k < r@.len() ==> #[trigger] r@[k] as int == k,
    {
        let mut indices: Vec<usize> = Vec::new();
        let mut i: usize = 0;
        while i < self.outputs.len()
            invariant
                i <= self.outputs@.len(),
                indices@.len() == i,
                forall|k: int| 0 <= k < i ==> #[trigger] indices@[k] as int == k,
            decreases self.outputs@.len() - i,
        {
            indices.push(i);
            i = i + 1;
        }
        indices
    }

    /// What to do for a request: a reply, or the outputs to dim.
    pub fn handle_request(&self, request: &str) -> (r: DarkCommand)
        ensures
            match spec_dark_request(request@, self.outputs@) {
                DarkSpec::Reply(s) => r matches DarkCommand::Reply(t) && t@ == s,
                DarkSpec::Dim(ix, b) => r matches DarkCommand::Dim { indices, brightness }
                    && brightness == b && indices@.len() == ix.len() && forall|k: int|
                    0 <= k < ix.len() ==> #[trigger] indices@[k] as int == ix[k],
            },
    {
        proof {
            reveal_strlit("LIST");
            reveal_strlit("GET");
            reveal_strlit("SET");
            reveal_strlit("@all");
        }
        let v = chars_of(request);
        let w = split_words(&v);
        let ghost sw = words(request@);
        if w.len() == 0 {
            return DarkCommand::Reply("ERR empty request\n".to_owned());
        }
        let cmd = &w[0];
        assert(cmd@ == sw[0]);
        if word_is(cmd, "LIST") {
            return DarkCommand::Reply(self.list_reply());
        }
        if word_is(cmd, "GET") {
            if w.len() < 2 {
                return DarkCommand::Reply("ERR missing output name\n".to_owned());
            }
            assert(w@[1]@ == sw[1]);
            return match self.output_index(&w[1]) {
                Some(i) => {
                    let mut s = String::new();
                    push_decimal(&mut s, self.outputs[i].brightness as u64);
                    push_char(&mut s, '\n');
                    DarkCommand::Reply(s)
                },
                None => DarkCommand::Reply(no_output_reply(&w[1])),
            };
        }
        if word_is(cmd, "SET") {
            if w.len() < 2 {
                return DarkCommand::Reply("ERR missing output name\n".to_owned());
            }
            assert(w@[1]@ == sw[1]);
            if w.len() < 3 {
                return DarkCommand::Reply("ERR missing brightness\n".to_owned());
            }
            assert(w@[2]@ == sw[2]);
            assert(w@[2]@.subrange(0, w@[2]@.len() as int) =~= w@[2]@);
            let p = match parse_unsigned_range(&w[2], 0, w[2].len(), 255) {
                Some(p) => p,
                None => return DarkCommand::Reply("ERR missing brightness\n".to_owned()),
            };
            if p > 100 {
                return DarkCommand::Reply("ERR brightness must be between 0 and 100\n".to_owned());
            }
            if word_is(&w[1], "@all") {
                return DarkCommand::Dim { indices: self.all_indices(), brightness: p as u8 };
            }
            return match self.output_index(&w[1]) {
                Some(i) => {
                    let mut indices: Vec<usize> = Vec::new();
                    indices.push(i);
                    DarkCommand::Dim { indices, brightness: p as u8 }
                },
                None => DarkCommand::Reply(no_output_reply(&w[1])),
            };
        }
        let mut s = String::new();
        push_str(&mut s, "ERR unknown command ");
        push_chars(&mut s, cmd);
        push_char(&mut s, '\n');
        assert(s@ =~= error_reply("unknown command "@ + sw[0])) by {
            reveal_strlit("ERR unknown command ");
            reveal_strlit("ERR ");
            reveal_strlit("unknown command ");
        }
        DarkCommand::Reply(s)
    }
}

// ---------------------------------------------------------------------------
// The listing round trip
// ---------------------------------------------------------------------------

/// What a client should read for output number `i`.
pub open spec fn output_record(outputs: Seq<OutputInfo>, i: int) -> OutputRecord {
    OutputRecord {
        name: spec_output_name(outputs[i], i as nat),
        brightness: outputs[i].brightness,
        label: spec_output_label(outputs[i], i as nat),
    }
}

/// Outputs whose names hold no tab or line break, and whose labels hold no line break.
pub open spec fn listable_outputs(outputs: Seq<OutputInfo>) -> bool {
    forall|i: int|
        0 <= i < outputs.len() ==> {
            &&& no_char(#[trigger] spec_output_name(outputs[i], i as nat), '\t')
            &&& no_char(spec_output_name(outputs[i], i as nat), '\n')
            &&& no_char(spec_output_name(outputs[i], i as nat), '\r')
            &&& no_char(spec_output_label(outputs[i], i as nat), '\n')
            &&& no_char(spec_output_label(outputs[i], i as nat), '\r')
        }
}

proof fn lemma_label_ends_with_paren(o: OutputInfo, i: nat)
    ensures
        spec_output_label(o, i).len() > 0,
        spec_output_label(o, i).last() == ')',
{
    reveal_strlit(")");
}

proof fn lemma_output_line(name: Seq<char>, b: u8, label: Seq<char>)
    requires
        no_char(name, '\t'),
    ensures
        spec_parse_output_line(name + seq!['\t'] + decimal(b as nat) + seq!['\t'] + label) == Ok::<
            OutputRecord,
            ResponseError,
        >(OutputRecord { name, brightness: b, label }),
{
    let d = decimal(b as nat);
    let line = name + seq!['\t'] + d + seq!['\t'] + label;
    lemma_decimal(b as nat);
    assert(no_char(d, '\t')) by {
        assert forall|j: int| 0 <= j < d.len() implies #[trigger] d[j] != '\t' by {
            assert(is_digit(d[j]));
        }
    }
    assert forall|k: int| 0 <= k < name.len() implies #[trigger] line[k] != '\t' by {
        assert(line[k] == name[k]);
    }
    lemma_find_char_skip(line, '\t', 0, name.len() as int);
    assert(line[name.len() as int] == '\t');
    let k1 = name.len() as int;
    assert(find_char(line, '\t', 0) == k1);
    assert forall|k: int| k1 + 1 <= k < k1 + 1 + d.len() implies #[trigger] line[k] != '\t' by {
        assert(line[k] == d[k - k1 - 1]);
    }
    lemma_find_char_skip(line, '\t', k1 + 1, k1 + 1 + d.len());
    assert(line[k1 + 1 + d.len()] == '\t');
    let k2 = k1 + 1 + d.len();
    assert(find_char(line, '\t', k1 + 1) == k2);
    assert(line.subrange(0, k1) =~= name);
    assert(line.subrange(k1 + 1, k2) =~= d);
    assert(line.subrange(k2 + 1, line.len() as int) =~= label);
    lemma_parse_decimal(b as nat, 255);
}

/// What a client reads from a `LIST` reply is the daemon's outputs, with
/// their names, brightness and labels, when those texts hold no line break
/// (and the names no tab).
pub proof fn lemma_output_list_roundtrip(outputs: Seq<OutputInfo>)
    requires
        listable_outputs(outputs),
    ensures
        spec_parse_output_brightness_response(join_lines(spec_output_lines(outputs))) == Ok::<
            Seq<OutputRecord>,
            ResponseError,
        >(Seq::new(outputs.len(), |i: int| output_record(outputs, i))),
{
    reveal(spec_output_lines);
    let ls = spec_output_lines(outputs);
    assert forall|i: int| 0 <= i < ls.len() implies no_char(#[trigger] ls[i], '\n') && !(
    ls[i].len() > 0 && ls[i].last() == '\r') by {
        let n = spec_output_name(outputs[i], i as nat);
        let d = decimal(outputs[i].brightness as nat);
        let l = spec_output_label(outputs[i], i as nat);
        assert(no_char(n, '\n') && no_char(l, '\n'));
        lemma_decimal(outputs[i].brightness as nat);
        lemma_label_ends_with_paren(outputs[i], i as nat);
        let line = n + seq!['\t'] + d + seq!['\t'] + l;
        assert(ls[i] == line);
        assert forall|k: int| 0 <= k < line.len() implies #[trigger] line[k] != '\n' by {
            if k < n.len() {
                assert(line[k] == n[k]);
            } else if n.len() < k < n.len() + 1 + d.len() {
                assert(line[k] == d[k - n.len() - 1]);
                assert(is_digit(d[k - n.len() - 1]));
            } else if k > n.len() + 1 + d.len() {
                assert(line[k] == l[k - n.len() - 2 - d.len()]);
            }
        }
        assert(line.last() == l.last());
    }
    lemma_lines_join(ls);
    lemma_output_lines_all(outputs, outputs.len() as int);
    assert(ls.take(outputs.len() as int) =~= ls);
}

proof fn lemma_output_lines_all(outputs: Seq<OutputInfo>, n: int)
    requires
        0 <= n <= outputs.len(),
        listable_outputs(outputs),
    ensures
        spec_parse_output_lines(spec_output_lines(outputs).take(n)) == Ok::<
            Seq<OutputRecord>,
            ResponseError,
        >(Seq::new(n as nat, |i: int| output_record(outputs, i))),
    decreases n,
{
    reveal(spec_output_lines);
    let ls = spec_output_lines(outputs);
    if n == 0 {
        assert(ls.take(0) =~= Seq::<Seq<char>>::empty());
        assert(Seq::new(0, |i: int| output_record(outputs, i)) =~= Seq::<OutputRecord>::empty());
    } else {
        lemma_output_lines_all(outputs, n - 1);
        assert(ls.take(n).drop_last() =~= ls.take(n - 1));
        let i = n - 1;
        assert(no_char(spec_output_name(outputs[i], i as nat), '\t'));
        lemma_output_line(
            spec_output_name(outputs[i], i as nat),
            outputs[i].brightness,
            spec_output_label(outputs[i], i as nat),
        );
        assert(ls.take(n).last() == ls[i]);
        assert(Seq::new(n as nat, |k: int| output_record(outputs, k)) =~= Seq::new(
            (n - 1) as nat,
            |k: int| output_record(outputs, k),
        ).push(output_record(outputs, i)));
    }
}


// ---------------------------------------------------------------------------
// Setting and reading back
// ---------------------------------------------------------------------------

/// Output `outputs[i]` at brightness `b`.
pub open spec fn with_brightness(outputs: Seq<OutputInfo>, i: int, b: u8) -> Seq<OutputInfo> {
    outputs.update(i, OutputInfo { brightness: b, ..outputs[i] })
}

/// Output `c` is the first one listed under `name`.
pub open spec fn first_named(outputs: Seq<OutputInfo>, name: Seq<char>, c: int) -> bool {
    &&& 0 <= c < outputs.len()
    &&& spec_output_name(outputs[c], c as nat) == name
    &&& forall|j: int| 0 <= j < c ==> spec_output_name(outputs[j], j as nat) != name
}

proof fn lemma_first_match(outputs: Seq<OutputInfo>, name: Seq<char>, k: int) -> (c: int)
    requires
        0 <= k <= outputs.len(),
        exists|i: int| k <= i < outputs.len() && spec_output_name(outputs[i], i as nat) == name,
        forall|j: int| 0 <= j < k ==> spec_output_name(outputs[j], j as nat) != name,
    ensures
        first_named(outputs, name, c),
    decreases outputs.len() - k,
{
    if spec_output_name(outputs[k], k as nat) == name {
        k
    } else {
        assert forall|j: int| 0 <= j < k + 1 implies spec_output_name(outputs[j], j as nat)
            != name by {
            if j < k {
            }
        }
        lemma_first_match(outputs, name, k + 1)
    }
}

/// What the index of a name is: the first output listed under it, if any.
proof fn lemma_output_index_spec(outputs: Seq<OutputInfo>, name: Seq<char>)
    ensures
        match spec_output_index(outputs, name) {
            Some(c) => first_named(outputs, name, c),
            None => forall|j: int|
                0 <= j < outputs.len() ==> spec_output_name(outputs[j], j as nat) != name,
        },
{
    reveal(spec_output_index);
    if exists|i: int| 0 <= i < outputs.len() && spec_output_name(outputs[i], i as nat) == name {
        let r = lemma_first_match(outputs, name, 0);
        assert(first_named(outputs, name, r));
    }
}

/// The first output listed under `name` is what the index of `name` gives.
proof fn lemma_output_index_first(outputs: Seq<OutputInfo>, name: Seq<char>, c: int)
    requires
        first_named(outputs, name, c),
    ensures
        spec_output_index(outputs, name) == Some(c),
{
    lemma_output_index_spec(outputs, name);
    let d = spec_output_index(outputs, name).unwrap();
    if d < c {
        assert(spec_output_name(outputs[d], d as nat) != name);
    }
    if c < d {
        assert(spec_output_name(outputs[c], c as nat) != name);
    }
}

/// Setting a brightness leaves every output's name, so also which output a
/// name finds.
proof fn lemma_index_keeps(outputs: Seq<OutputInfo>, i: int, b: u8, name: Seq<char>)
    requires
        0 <= i < outputs.len(),
        spec_output_index(outputs, name) is Some,
    ensures
        spec_output_index(with_brightness(outputs, i, b), name) == spec_output_index(outputs, name),
{
    let after = with_brightness(outputs, i, b);
    assert forall|k: int| 0 <= k < outputs.len() implies spec_output_name(after[k], k as nat)
        == spec_output_name(outputs[k], k as nat) by {
        if k == i {
            assert(after[k].name == outputs[k].name && after[k].model == outputs[k].model);
        }
    }
    lemma_output_index_spec(outputs, name);
    let c = spec_output_index(outputs, name).unwrap();
    assert(first_named(after, name, c));
    lemma_output_index_first(after, name, c);
}

/// A client's `SET` request for an output, with a percentage of at most 100,
/// makes the daemon dim the first output listed under that name.
pub proof fn lemma_dark_set_request_handled(outputs: Seq<OutputInfo>, name: Seq<char>, b: u8)
    requires
        is_word(name),
        name != "@all"@,
        b <= 100,
        spec_output_index(outputs, name) is Some,
    ensures
        spec_dark_request(seq!['S', 'E', 'T', ' '] + name + seq![' '] + decimal(b as nat), outputs)
            == DarkSpec::Dim(seq![spec_output_index(outputs, name).unwrap()], b),
{
    reveal_strlit("LIST");
    reveal_strlit("GET");
    reveal_strlit("SET");
    lemma_set_request_words(name, b);
    let w = words(seq!['S', 'E', 'T', ' '] + name + seq![' '] + decimal(b as nat));
    assert(w[0] =~= "SET"@);
    assert(w[0] != "LIST"@) by {
        assert(w[0].len() != "LIST"@.len());
    }
    assert(w[0] != "GET"@) by {
        assert(w[0][0] != "GET"@[0]);
    }
    lemma_parse_decimal(b as nat, 255);
}

/// After the first output listed under `name` is set to `b`, the daemon
/// answers a client's `GET` for `name` with `b`, and the client reads `b`.
pub proof fn lemma_dark_set_then_get(outputs: Seq<OutputInfo>, name: Seq<char>, b: u8)
    requires
        is_word(name),
        spec_output_index(outputs, name) is Some,
    ensures
        ({
            let after = with_brightness(outputs, spec_output_index(outputs, name).unwrap(), b);
            spec_dark_request(seq!['G', 'E', 'T', ' '] + name, after) == DarkSpec::Reply(
                decimal(b as nat) + seq!['\n'],
            )
        }),
        spec_reply_error(decimal(b as nat) + seq!['\n']) is None,
        spec_get_reply(decimal(b as nat) + seq!['\n']) == Some(b as int),
{
    reveal_strlit("LIST");
    reveal_strlit("GET");
    let i = spec_output_index(outputs, name).unwrap();
    lemma_output_index_spec(outputs, name);
    lemma_index_keeps(outputs, i, b, name);
    lemma_get_request_words(name);
    let w = words(seq!['G', 'E', 'T', ' '] + name);
    assert(w[0] =~= "GET"@);
    assert(w[0] != "LIST"@) by {
        assert(w[0].len() != "LIST"@.len());
    }
    lemma_get_reply_roundtrip(b as u32);
}

// ---------------------------------------------------------------------------
// The overlay buffer
// ---------------------------------------------------------------------------

/// Why an overlay buffer could not be laid out.
#[derive(Clone, Copy, Debug, PartialEq, Eq, Structural)]
pub enum BufferError {
    /// `width * 4` does not fit in a `u32`.
    StrideOverflow,
    /// `stride * height` does not fit in a `u32`.
    SizeOverflow,
}

impl BufferError {
    /// The text that explains the error.
    pub fn message(&self) -> (s: &'static str)
        ensures
            self is StrideOverflow ==> s@ == "buffer stride overflow"@,
            self is SizeOverflow ==> s@ == "buffer size overflow"@,
    {
        match self {
            BufferError::StrideOverflow => "buffer stride overflow",
            BufferError::SizeOverflow => "buffer size overflow",
        }
    }
}

/// The layout of an overlay buffer: bytes per row, bytes in all, and the
/// ARGB8888 value of every pixel.
#[derive(Clone, Copy, Debug, PartialEq, Eq, Structural)]
pub struct DimBuffer {
    pub stride: u32,
    pub size: u32,
    pub pixel: u32,
}

/// The overlay's opacity for a brightness: the share of 255 that the
/// brightness leaves dark, rounded.
pub open spec fn spec_dim_alpha(brightness: u8) -> int {
    255 - (brightness as int * 255 + 50) / 100
}

/// The layout of the black overlay that dims an output of `width` by
/// `height` pixels to `brightness` percent.
pub open spec fn spec_dim_buffer(width: u32, height: u32, brightness: u8) -> Result<
    DimBuffer,
    BufferError,
> {
    let stride = width as int * 4;
    if stride > u32::MAX {
        Err(BufferError::StrideOverflow)
    } else if stride * height as int > u32::MAX {
        Err(BufferError::SizeOverflow)
    } else {
        Ok(
            DimBuffer {
                stride: stride as u32,
                size: (stride * height as int) as u32,
                pixel: (spec_dim_alpha(brightness) * 0x100_0000) as u32,
            },
        )
    }
}

/// The overlay's opacity: 0 at 100%, 255 at 0%.
pub fn dim_alpha(brightness: u8) -> (a: u32)
    requires
        brightness <= 100,
    ensures
        a == spec_dim_alpha(brightness),
        0 <= a <= 255,
        brightness == 100 ==> a == 0,
        brightness == 0 ==> a == 255,
{
    255 - ((brightness as u32 * 255 + 50) / 100)
}

/// Lays out the overlay buffer for an output of `width` by `height` pixels
/// dimmed to `brightness` percent.
pub fn dim_buffer(width: u32, height: u32, brightness: u8) -> (r: Result<DimBuffer, BufferError>)
    requires
        brightness <= 100,
    ensures
        r == spec_dim_buffer(width, height, brightness),
{
    let stride = match width.checked_mul(4) {
        Some(s) => s,
        None => return Err(BufferError::StrideOverflow),
    };
    let size = match stride.checked_mul(height) {
        Some(s) => s,
        None => return Err(BufferError::SizeOverflow),
    };
    let alpha = dim_alpha(brightness);
    Ok(DimBuffer { stride, size, pixel: alpha * 0x100_0000 })
}

} // verus!

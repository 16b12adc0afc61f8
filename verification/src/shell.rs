//! The console shell model: the hex color codec used by chat-line
//! prefixes, the fading log columns, and the control surface's message
//! state machine. Rendering the shell is outside the core.

use vstd::prelude::*;

verus! {

use vstd::string::StrSliceExecFns;
use vstd::string::StringExecFns;

/// The value of a hexadecimal digit character, or -1.
pub open spec fn hex_val(c: char) -> int {
    if c == '0' {
        0
    } else if c == '1' {
        1
    } else if c == '2' {
        2
    } else if c == '3' {
        3
    } else if c == '4' {
        4
    } else if c == '5' {
        5
    } else if c == '6' {
        6
    } else if c == '7' {
        7
    } else if c == '8' {
        8
    } else if c == '9' {
        9
    } else if c == 'a' || c == 'A' {
        10
    } else if c == 'b' || c == 'B' {
        11
    } else if c == 'c' || c == 'C' {
        12
    } else if c == 'd' || c == 'D' {
        13
    } else if c == 'e' || c == 'E' {
        14
    } else if c == 'f' || c == 'F' {
        15
    } else {
        -1
    }
}

/// A text decodes as hex: an even number of hex digits.
pub open spec fn valid_hex(s: Seq<char>) -> bool {
    s.len() % 2 == 0 && forall|i: int| 0 <= i < s.len() ==> hex_val(#[trigger] s[i]) >= 0
}

/// The bytes a hex text denotes, two digits each.
pub open spec fn spec_decode_hex(s: Seq<char>) -> Seq<u8>
    decreases s.len(),
{
    if s.len() < 2 {
        Seq::empty()
    } else {
        seq![(hex_val(s[0]) * 16 + hex_val(s[1])) as u8] + spec_decode_hex(s.skip(2))
    }
}

/// The lowercase digit character of a value below sixteen.
pub open spec fn hex_char(v: int) -> char {
    if v == 0 {
        '0'
    } else if v == 1 {
        '1'
    } else if v == 2 {
        '2'
    } else if v == 3 {
        '3'
    } else if v == 4 {
        '4'
    } else if v == 5 {
        '5'
    } else if v == 6 {
        '6'
    } else if v == 7 {
        '7'
    } else if v == 8 {
        '8'
    } else if v == 9 {
        '9'
    } else if v == 10 {
        'a'
    } else if v == 11 {
        'b'
    } else if v == 12 {
        'c'
    } else if v == 13 {
        'd'
    } else if v == 14 {
        'e'
    } else {
        'f'
    }
}

/// The two lowercase digits of each byte, in order.
pub open spec fn spec_encode_hex(bs: Seq<u8>) -> Seq<char>
    decreases bs.len(),
{
    if bs.len() == 0 {
        Seq::empty()
    } else {
        seq![hex_char(bs[0] as int / 16), hex_char(bs[0] as int % 16)] + spec_encode_hex(bs.skip(1))
    }
}

/// Why a hex text failed to decode.
#[derive(PartialEq, Eq, Structural, Clone, Copy, Debug)]
pub enum HexError {
    OddLength,
    InvalidDigit,
}

/// Law: the hex codec round-trips: decoding an encoded byte string
/// yields the bytes back.
pub proof fn lemma_hex_round_trip(bs: Seq<u8>)
    ensures
        valid_hex(spec_encode_hex(bs)),
        spec_decode_hex(spec_encode_hex(bs)) == bs,
    decreases bs.len(),
{
    let e = spec_encode_hex(bs);
    if bs.len() == 0 {
        assert(spec_decode_hex(e) =~= bs);
    } else {
        lemma_hex_round_trip(bs.skip(1));
        let b = bs[0];
        vstd::arithmetic::div_mod::lemma_fundamental_div_mod(b as int, 16);
        vstd::arithmetic::div_mod::lemma_mod_bound(b as int, 16);
        vstd::arithmetic::div_mod::lemma_div_pos_is_pos(b as int, 16);
        assert(b as int / 16 <= 15) by (nonlinear_arith)
            requires
                0 <= b < 256,
        ;
        assert(hex_val(hex_char(b as int / 16)) == b as int / 16);
        assert(hex_val(hex_char(b as int % 16)) == b as int % 16);
        let t = spec_encode_hex(bs.skip(1));
        assert(e == seq![hex_char(b as int / 16), hex_char(b as int % 16)] + t);
        assert(e.len() == 2 + t.len());
        assert(e.len() % 2 == 0) by (nonlinear_arith)
            requires
                t.len() % 2 == 0,
                e.len() == 2 + t.len(),
        ;
        assert(valid_hex(e)) by {
            assert forall|i: int| 0 <= i < e.len() implies hex_val(#[trigger] e[i]) >= 0 by {
                if i >= 2 {
                    assert(e[i] == t[i - 2]);
                }
            }
        }
        assert(e.skip(2) =~= t);
        assert((hex_val(e[0]) * 16 + hex_val(e[1])) == b as int) by (nonlinear_arith)
            requires
                hex_val(e[0]) == b as int / 16,
                hex_val(e[1]) == b as int % 16,
                b as int == 16 * (b as int / 16) + b as int % 16,
        ;
        assert(spec_decode_hex(e) =~= bs);
    }
}

/// Decode a text of hex digit pairs into bytes; an odd length or a
/// character that is no hex digit is refused.
pub fn decode_hex(s: &str) -> (r: Result<Vec<u8>, HexError>)
    ensures
        match r {
            Ok(v) => valid_hex(s@) && v@ == spec_decode_hex(s@),
            Err(_) => !valid_hex(s@),
        },
{
    let n = s.unicode_len();
    if n % 2 != 0 {
        return Err(HexError::OddLength);
    }
    let mut out: Vec<u8> = Vec::new();
    let mut i: usize = 0;
    proof {
        assert(s@.skip(0) =~= s@);
        assert(out@ + spec_decode_hex(s@) =~= spec_decode_hex(s@));
    }
    while i < n
        invariant
            0 <= i <= n == s@.len(),
            i % 2 == 0,
            n % 2 == 0,
            forall|j: int| 0 <= j < i ==> hex_val(#[trigger] s@[j]) >= 0,
            out@ + spec_decode_hex(s@.skip(i as int)) == spec_decode_hex(s@),
        decreases n - i,
    {
        let hi = hex_digit(s.get_char(i));
        let lo = hex_digit(s.get_char(i + 1));
        if hi < 0 || lo < 0 {
            return Err(HexError::InvalidDigit);
        }
        out.push((hi * 16 + lo) as u8);
        proof {
            let rest = s@.skip(i as int);
            assert(rest.len() >= 2);
            assert(rest[0] == s@[i as int] && rest[1] == s@[i as int + 1]);
            assert(spec_decode_hex(rest) == seq![(hex_val(rest[0]) * 16 + hex_val(rest[1])) as u8]
                + spec_decode_hex(rest.skip(2)));
            assert(rest.skip(2) =~= s@.skip(i as int + 2));
            assert(out@ + spec_decode_hex(s@.skip(i as int + 2)) =~= spec_decode_hex(s@));
        }
        i += 2;
    }
    proof {
        assert(s@.skip(n as int).len() == 0);
        assert(spec_decode_hex(s@.skip(n as int)) =~= Seq::<u8>::empty());
        assert(out@ + spec_decode_hex(s@.skip(n as int)) =~= out@);
    }
    Ok(out)
}

/// The value of one hex digit character, or -1, on machine integers.
fn hex_digit(c: char) -> (r: i32)
    ensures
        r == hex_val(c),
{
    if c == '0' {
        0
    } else if c == '1' {
        1
    } else if c == '2' {
        2
    } else if c == '3' {
        3
    } else if c == '4' {
        4
    } else if c == '5' {
        5
    } else if c == '6' {
        6
    } else if c == '7' {
        7
    } else if c == '8' {
        8
    } else if c == '9' {
        9
    } else if c == 'a' || c == 'A' {
        10
    } else if c == 'b' || c == 'B' {
        11
    } else if c == 'c' || c == 'C' {
        12
    } else if c == 'd' || c == 'D' {
        13
    } else if c == 'e' || c == 'E' {
        14
    } else if c == 'f' || c == 'F' {
        15
    } else {
        -1
    }
}

/// The lowercase digit of a value below sixteen, on machine strings.
fn hex_char_str(v: u8) -> (r: &'static str)
    requires
        v < 16,
    ensures
        r@ =~= seq![hex_char(v as int)],
{
    proof {
        reveal_strlit("0");
        reveal_strlit("1");
        reveal_strlit("2");
        reveal_strlit("3");
        reveal_strlit("4");
        reveal_strlit("5");
        reveal_strlit("6");
        reveal_strlit("7");
        reveal_strlit("8");
        reveal_strlit("9");
        reveal_strlit("a");
        reveal_strlit("b");
        reveal_strlit("c");
        reveal_strlit("d");
        reveal_strlit("e");
        reveal_strlit("f");
    }
    if v == 0 {
        "0"
    } else if v == 1 {
        "1"
    } else if v == 2 {
        "2"
    } else if v == 3 {
        "3"
    } else if v == 4 {
        "4"
    } else if v == 5 {
        "5"
    } else if v == 6 {
        "6"
    } else if v == 7 {
        "7"
    } else if v == 8 {
        "8"
    } else if v == 9 {
        "9"
    } else if v == 10 {
        "a"
    } else if v == 11 {
        "b"
    } else if v == 12 {
        "c"
    } else if v == 13 {
        "d"
    } else if v == 14 {
        "e"
    } else {
        "f"
    }
}

/// Encode bytes as lowercase hex, two digits each.
pub fn encode_hex(bytes: &[u8]) -> (r: String)
    ensures
        r@ == spec_encode_hex(bytes@),
{
    let n = bytes.len();
    let mut out = String::new();
    let mut i: usize = 0;
    proof {
        assert(bytes@.skip(0) =~= bytes@);
        assert(out@ + spec_encode_hex(bytes@) =~= spec_encode_hex(bytes@));
    }
    while i < n
        invariant
            0 <= i <= n == bytes@.len(),
            out@ + spec_encode_hex(bytes@.skip(i as int)) == spec_encode_hex(bytes@),
        decreases n - i,
    {
        let b = bytes[i];
        out.append(hex_char_str(b / 16));
        out.append(hex_char_str(b % 16));
        proof {
            let rest = bytes@.skip(i as int);
            assert(rest[0] == bytes@[i as int]);
            assert(spec_encode_hex(rest) == seq![
                hex_char(rest[0] as int / 16),
                hex_char(rest[0] as int % 16),
            ] + spec_encode_hex(rest.skip(1)));
            assert(rest.skip(1) =~= bytes@.skip(i as int + 1));
            assert(out@ + spec_encode_hex(bytes@.skip(i as int + 1)) =~= spec_encode_hex(bytes@));
        }
        i += 1;
    }
    proof {
        assert(bytes@.skip(n as int).len() == 0);
        assert(spec_encode_hex(bytes@.skip(n as int)) =~= Seq::<char>::empty());
        assert(out@ =~= spec_encode_hex(bytes@));
    }
    out
}

/// One fading log line: an optional colored id prefix, the text, a
/// countdown timer and a fade alpha, both in milli-units.
pub struct TextColumn {
    pub id: String,
    pub id_color: [i32; 3],
    pub text: String,
    pub timer: i32,
    pub alpha: i32,
}

impl TextColumn {
    /// A fresh log line: ten seconds on the clock, seven-tenths alpha.
    pub fn new(text: String) -> (r: TextColumn)
        ensures
            r.id@ == Seq::<char>::empty(),
            r.id_color == [0i32, 0i32, 0i32],
            r.text == text,
            r.timer == 10000,
            r.alpha == 700,
    {
        let c: [i32; 3] = [0, 0, 0];
        proof {
            assert(c =~= [0i32, 0i32, 0i32]);
        }
        TextColumn { id: String::new(), id_color: c, text, timer: 10000, alpha: 700 }
    }

    /// Set the id prefix.
    pub fn id(&mut self, text: String)
        ensures
            final(self).id == text,
            final(self).id_color == old(self).id_color,
            final(self).text == old(self).text,
            final(self).timer == old(self).timer,
            final(self).alpha == old(self).alpha,
    {
        self.id = text;
    }
}

/// A log line's working bounds: positive fading alpha of at most one,
/// a timer below its start value, and once the timer has fallen far
/// the alpha is falling with it.
pub open spec fn column_ok(t: TextColumn) -> bool {
    &&& 0 < t.alpha <= 1000
    &&& -200 < t.timer <= 10000
    &&& t.timer <= -100 ==> t.alpha <= 10 * t.timer + 2000
}

/// One update tick of a log line: the timer runs down; once it has run
/// out the alpha fades, refreshed to full for one instant at the
/// moment of running out.
pub open spec fn spec_tick(t: TextColumn) -> TextColumn {
    let timer = t.timer - 10;
    if timer <= 0 {
        let a = if timer > -100 {
            1000
        } else {
            t.alpha as int
        };
        TextColumn { timer: (timer) as i32, alpha: (a - 100) as i32, ..t }
    } else {
        TextColumn { timer: (timer) as i32, ..t }
    }
}

/// The log lines after one tick: each line ticked, the fully faded
/// ones dropped, order kept.
pub open spec fn spec_ticked(s: Seq<TextColumn>, i: int) -> Seq<TextColumn>
    decreases i,
{
    if i <= 0 {
        Seq::empty()
    } else {
        let r = spec_ticked(s, i - 1);
        if spec_tick(s[i - 1]).alpha > 0 {
            r.push(spec_tick(s[i - 1]))
        } else {
            r
        }
    }
}

/// A message the shell's control surface handles.
pub enum Message {
    TextChanged(String),
    CommandChanged(String),
    UsrIndicator(String, bool),
    ServerLog(String),
    FrameUpdate(i32),
    OnSubmit,
    Parse,
    Update,
    CommandParsed,
    ChatMessage,
    Coordinate([i32; 3]),
    BackgroundColorChanged([i32; 4]),
}

/// The control surface: the input line, the command buffer, the tool
/// indicator line, the fading log columns, and the paint color the
/// sliders select.
pub struct Controls {
    pub text: String,
    pub command_buffer: String,
    pub indicator_text: String,
    pub indicator_overdose: bool,
    pub test: [i32; 3],
    pub fps: i32,
    pub text_column: Vec<TextColumn>,
    pub parse_flag: bool,
    pub color: [i32; 4],
}

impl Controls {
    /// Every log line is within its working bounds.
    pub open spec fn wf(self) -> bool {
        forall|k: int| 0 <= k < self.text_column@.len() ==> column_ok(#[trigger] self.text_column@[k])
    }

    /// A fresh control surface: everything empty, white paint.
    pub fn new() -> (r: Controls)
        ensures
            r.wf(),
            r.text@ == Seq::<char>::empty(),
            r.command_buffer@ == Seq::<char>::empty(),
            r.indicator_text@ == Seq::<char>::empty(),
            !r.indicator_overdose,
            r.fps == 0,
            r.text_column@.len() == 0,
            !r.parse_flag,
            r.color == [1000i32, 1000i32, 1000i32, 1000i32],
    {
        let c: [i32; 4] = [1000, 1000, 1000, 1000];
        let t: [i32; 3] = [0, 0, 0];
        proof {
            assert(c =~= [1000i32, 1000i32, 1000i32, 1000i32]);
        }
        Controls {
            text: String::new(),
            command_buffer: String::new(),
            indicator_text: String::new(),
            indicator_overdose: false,
            test: t,
            fps: 0,
            text_column: Vec::new(),
            parse_flag: false,
            color: c,
        }
    }

    /// Handle one message: field updates for the plain messages, the
    /// fade tick for `Update`, and for `ChatMessage` the command buffer
    /// echoed as a log line, with an optional leading `hex:` color
    /// prefix decoded into an id color. A prefix that is not three hex
    /// byte pairs leaves the line unprefixed rather than failing.
    #[verifier::rlimit(100)]
    #[verifier::spinoff_prover]
    pub fn update(&mut self, message: Message)
        requires
            old(self).wf(),
        ensures
            final(self).wf(),
            match message {
                Message::TextChanged(t) => *final(self) == Controls { text: t, ..*old(self) },
                Message::CommandChanged(t) => *final(self) == Controls {
                    command_buffer: t,
                    ..*old(self)
                },
                Message::OnSubmit => final(self).text@ == Seq::<char>::empty() && final(self).command_buffer == old(self).command_buffer && final(self).text_column == old(self).text_column,
                Message::Parse => *final(self) == Controls { parse_flag: true, ..*old(self) },
                Message::FrameUpdate(fps) => *final(self) == Controls { fps, ..*old(self) },
                Message::Update => final(self).text_column@ == spec_ticked(
                    old(self).text_column@,
                    old(self).text_column@.len() as int,
                ) && final(self).text == old(self).text && final(self).command_buffer == old(self).command_buffer && final(self).color == old(self).color,
                Message::ServerLog(t) => final(self).text_column@.len() == old(self).text_column@.len() + 1 && final(self).text_column@.last().text == t && final(self).text_column@.last().timer == 10000,
                Message::CommandParsed => final(self).command_buffer@ == Seq::<char>::empty()
                    && !final(self).parse_flag,
                Message::ChatMessage => final(self).text_column@.len() == old(self).text_column@.len() + 1,
                Message::Coordinate(c) => *final(self) == Controls { test: c, ..*old(self) },
                Message::UsrIndicator(t, o) => *final(self) == Controls {
                    indicator_text: t,
                    indicator_overdose: o,
                    ..*old(self)
                },
                Message::BackgroundColorChanged(c) => *final(self) == Controls {
                    color: c,
                    ..*old(self)
                },
            },
    {
        match message {
            Message::TextChanged(t) => {
                self.text = t;
            },
            Message::CommandChanged(t) => {
                self.command_buffer = t;
            },
            Message::OnSubmit => {
                self.text = String::new();
            },
            Message::Parse => {
                self.parse_flag = true;
            },
            Message::FrameUpdate(fps) => {
                self.fps = fps;
            },
            Message::Update => {
                let ghost s0 = self.text_column@;
                let n = self.text_column.len();
                let mut kept: Vec<TextColumn> = Vec::new();
                let mut i: usize = 0;
                while i < n
                    invariant
                        0 <= i <= n == s0.len(),
                        self.text_column@ == s0,
                        forall|k: int| 0 <= k < n ==> column_ok(#[trigger] s0[k]),
                        kept@ == spec_ticked(s0, i as int),
                        forall|k: int|
                            0 <= k < kept@.len() ==> column_ok(#[trigger] kept@[k]),
                    decreases n - i,
                {
                    let t0 = &self.text_column[i];
                    let timer = t0.timer - 10;
                    let mut t = TextColumn {
                        id: t0.id.clone(),
                        id_color: t0.id_color,
                        text: t0.text.clone(),
                        timer,
                        alpha: t0.alpha,
                    };
                    if timer <= 0 {
                        if timer > -100 {
                            t.alpha = 1000;
                        }
                        t.alpha = t.alpha - 100;
                    }
                    proof {
                        assert(t == spec_tick(s0[i as int]));
                    }
                    if t.alpha > 0 {
                        proof {
                            assert(column_ok(t));
                        }
                        kept.push(t);
                    }
                    i += 1;
                }
                self.text_column = kept;
            },
            Message::ServerLog(t) => {
                self.text_column.push(TextColumn::new(t));
            },
            Message::CommandParsed => {
                self.command_buffer = String::new();
                self.parse_flag = false;
            },
            Message::ChatMessage => {
                let buf = self.command_buffer.clone();
                let s = buf.as_str();
                let n = s.unicode_len();
                // find the first colon
                let mut colon: usize = n;
                let mut i: usize = 0;
                while i < n
                    invariant
                        0 <= i <= n == s@.len(),
                        colon == n || (colon < i && s@[colon as int] == ':'),
                    decreases n - i,
                {
                    if s.get_char(i) == ':' && colon == n {
                        colon = i;
                    }
                    i += 1;
                }
                if colon == n {
                    self.text_column.push(TextColumn::new(String::from_str(s)));
                } else {
                    // the text between the first and a possible second colon
                    let mut stop: usize = n;
                    let mut j = colon + 1;
                    while j < n
                        invariant
                            colon < j <= n == s@.len(),
                            stop == n || (colon < stop && stop < j && s@[stop as int] == ':'),
                        decreases n - j,
                    {
                        if s.get_char(j) == ':' && stop == n {
                            stop = j;
                        }
                        j += 1;
                    }
                    let body = s.substring_char(colon + 1, stop);
                    let prefix = s.substring_char(0, colon);
                    let mut line = TextColumn::new(String::from_str(body));
                    let mut idtext = String::from_str(prefix);
                    proof {
                        reveal_strlit(":");
                    }
                    idtext.append(":");
                    line.id(idtext);
                    match decode_hex(prefix) {
                        Ok(bytes) => {
                            if bytes.len() >= 3 {
                                let c0 = (bytes[0] as i64 + 256) * 1000 / 512;
                                let c1 = (bytes[1] as i64 + 256) * 1000 / 512;
                                let c2 = (bytes[2] as i64 + 256) * 1000 / 512;
                                line.id_color = [c0 as i32, c1 as i32, c2 as i32];
                            }
                        },
                        Err(_) => {},
                    }
                    self.text_column.push(line);
                }
            },
            Message::Coordinate(c) => {
                self.test = c;
            },
            Message::UsrIndicator(t, o) => {
                self.indicator_text = t;
                self.indicator_overdose = o;
            },
            Message::BackgroundColorChanged(c) => {
                self.color = c;
            },
        }
    }
}

} // verus!

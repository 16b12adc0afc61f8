//! The text command protocol: decoding a whitespace-tokenized command
//! into a typed edit request and dispatching it to the chunk manager,
//! and the inverse half — formatting an edit request into a command
//! string — with an exact round-trip law.

use vstd::prelude::*;

verus! {

use crate::chunk::ChunkType;
use crate::geom::{WORLD_MAX, WORLD_MIN, in_world, pos_of};
use crate::manager::{ChunkManager, route_draw_rel, route_place_rel};
use crate::numtext::{
    fmt_i32,
    fmt_milli,
    parse_i32,
    parse_milli,
    spec_fmt_i32,
    spec_fmt_milli,
    spec_parse_i32,
    spec_parse_milli,
    spec_tokens,
    tokenize,
    valid_int_token,
    valid_milli_token,
};
use vstd::string::StrSliceExecFns;
use vstd::string::StringExecFns;

/// Which intermediate render target a debug verb selects.
#[derive(PartialEq, Eq, Structural, Clone, Copy, Debug)]
pub enum TextureTarget {
    Diffuse,
    Normal,
    Depth,
    Output,
}

/// The classification of a command line.
#[derive(PartialEq, Eq, Structural, Clone, Copy, Debug)]
pub enum CmdKind {
    Chat,
    Place,
    Delete,
    Draw,
    Get,
    TexDiffuse,
    TexNormal,
    TexDepth,
    TexOutput,
    Insufficient,
    Malformed,
    Unknown,
}

/// An integer token that both parses and lands inside the world range.
pub open spec fn world_int_token(t: Seq<char>) -> bool {
    valid_int_token(t) && WORLD_MIN <= spec_parse_i32(t) <= WORLD_MAX
}

/// The eleven numeric arguments of an edit verb are well formed: two
/// world coordinates, a color, and an id.
pub open spec fn edit_args_ok(toks: Seq<Seq<char>>) -> bool {
    &&& world_int_token(toks[1])
    &&& world_int_token(toks[2])
    &&& world_int_token(toks[3])
    &&& world_int_token(toks[4])
    &&& world_int_token(toks[5])
    &&& world_int_token(toks[6])
    &&& valid_milli_token(toks[7])
    &&& valid_milli_token(toks[8])
    &&& valid_milli_token(toks[9])
    &&& valid_milli_token(toks[10])
    &&& valid_int_token(toks[11])
}

/// How a command line is classified: chat when it does not start with
/// the command prefix; otherwise by its verb, with the edit verbs
/// demanding eleven well-formed numeric arguments.
pub open spec fn spec_cmd_kind(s: Seq<char>) -> CmdKind {
    let toks = spec_tokens(s);
    if toks[0].len() == 0 || toks[0][0] != '/' {
        CmdKind::Chat
    } else if toks[0] == "/place"@ {
        if toks.len() < 12 {
            CmdKind::Insufficient
        } else if edit_args_ok(toks) {
            CmdKind::Place
        } else {
            CmdKind::Malformed
        }
    } else if toks[0] == "/delete"@ {
        if toks.len() < 12 {
            CmdKind::Insufficient
        } else if edit_args_ok(toks) {
            CmdKind::Delete
        } else {
            CmdKind::Malformed
        }
    } else if toks[0] == "/draw"@ {
        if toks.len() < 12 {
            CmdKind::Insufficient
        } else if edit_args_ok(toks) {
            CmdKind::Draw
        } else {
            CmdKind::Malformed
        }
    } else if toks[0] == "/get"@ {
        CmdKind::Get
    } else if toks[0] == "/diffuse"@ {
        CmdKind::TexDiffuse
    } else if toks[0] == "/normal"@ {
        CmdKind::TexNormal
    } else if toks[0] == "/depth"@ {
        CmdKind::TexDepth
    } else if toks[0] == "/output"@ {
        CmdKind::TexOutput
    } else {
        CmdKind::Unknown
    }
}

/// The first corner an edit command names.
pub open spec fn spec_cmd_first(s: Seq<char>) -> (int, int, int) {
    let toks = spec_tokens(s);
    (spec_parse_i32(toks[1]), spec_parse_i32(toks[2]), spec_parse_i32(toks[3]))
}

/// The last corner an edit command names.
pub open spec fn spec_cmd_last(s: Seq<char>) -> (int, int, int) {
    let toks = spec_tokens(s);
    (spec_parse_i32(toks[4]), spec_parse_i32(toks[5]), spec_parse_i32(toks[6]))
}

/// The color an edit command names, in milli-units.
pub open spec fn spec_cmd_color(s: Seq<char>) -> [i32; 4] {
    let toks = spec_tokens(s);
    [
        spec_parse_milli(toks[7]) as i32,
        spec_parse_milli(toks[8]) as i32,
        spec_parse_milli(toks[9]) as i32,
        spec_parse_milli(toks[10]) as i32,
    ]
}

/// The model or brush id an edit command names.
pub open spec fn spec_cmd_id(s: Seq<char>) -> int {
    spec_parse_i32(spec_tokens(s)[11])
}

/// What a parsed command left behind: the log line it produced, the
/// render target it selected, and whether the line was chat text.
pub struct CommandOutcome {
    pub log: String,
    pub texture: Option<TextureTarget>,
    pub chat: bool,
}

/// The console command buffer.
pub struct Descriptor {
    pub text: String,
}

/// The log line an edit verb reports: the parsed corners and id echoed
/// back.
pub open spec fn spec_edit_log(
    prefix: Seq<char>,
    f: (int, int, int),
    l: (int, int, int),
    id: int,
) -> Seq<char> {
    prefix + spec_fmt_i32(f.0) + seq![' '] + spec_fmt_i32(f.1) + seq![' '] + spec_fmt_i32(f.2)
        + seq![' '] + "; "@ + spec_fmt_i32(l.0) + seq![' '] + spec_fmt_i32(l.1) + seq![' ']
        + spec_fmt_i32(l.2) + seq![' '] + " ID ="@ + spec_fmt_i32(id) + seq![' ']
}

/// The token list of an emitted edit command: the verb, the six corner
/// coordinates, the four color channels, the id, and the empty token
/// the trailing separator leaves.
pub open spec fn cmd_tokens(
    head: Seq<char>,
    f: (int, int, int),
    l: (int, int, int),
    c: (int, int, int, int),
    id: int,
) -> Seq<Seq<char>> {
    seq![
        head,
        spec_fmt_i32(f.0),
        spec_fmt_i32(f.1),
        spec_fmt_i32(f.2),
        spec_fmt_i32(l.0),
        spec_fmt_i32(l.1),
        spec_fmt_i32(l.2),
        spec_fmt_milli(c.0),
        spec_fmt_milli(c.1),
        spec_fmt_milli(c.2),
        spec_fmt_milli(c.3),
        spec_fmt_i32(id),
        Seq::<char>::empty(),
    ]
}

/// Tokens joined by single spaces.
pub open spec fn join_sp(ts: Seq<Seq<char>>) -> Seq<char>
    decreases ts.len(),
{
    if ts.len() == 0 {
        Seq::empty()
    } else if ts.len() == 1 {
        ts[0]
    } else {
        ts[0] + seq![' '] + join_sp(ts.skip(1))
    }
}

/// The command string an edit emission produces.
pub open spec fn spec_command_text(
    head: Seq<char>,
    f: (int, int, int),
    l: (int, int, int),
    c: (int, int, int, int),
    id: int,
) -> Seq<char> {
    join_sp(cmd_tokens(head, f, l, c, id))
}

/// Splitting at the first separator of a spaced join peels off the
/// first token.
pub proof fn lemma_tokens_concat(a: Seq<char>, b: Seq<char>)
    requires
        forall|j: int| 0 <= j < a.len() ==> a[j] != ' ',
    ensures
        spec_tokens(a + seq![' '] + b) == seq![a] + spec_tokens(b),
{
    let s = a + seq![' '] + b;
    assert(s.len() == a.len() + 1 + b.len());
    assert(s[a.len() as int] == ' ');
    assert(forall|j: int| 0 <= j < a.len() ==> s[j] == a[j]);
    crate::numtext::lemma_find_char_at(s, ' ', a.len() as int);
    assert(s.take(a.len() as int) =~= a);
    assert(s.skip(a.len() as int + 1) =~= b);
}

/// No token of a spaced join holds a space, so tokenizing the join
/// gives the tokens back.
pub proof fn lemma_tokens_join(ts: Seq<Seq<char>>)
    requires
        ts.len() >= 1,
        forall|i: int, j: int|
            0 <= i < ts.len() && 0 <= j < ts[i].len() ==> #[trigger] ts[i][j] != ' ',
    ensures
        spec_tokens(join_sp(ts)) == ts,
    decreases ts.len(),
{
    if ts.len() == 1 {
        crate::numtext::lemma_find_char_none(ts[0], ' ');
        assert(spec_tokens(join_sp(ts)) =~= ts);
    } else {
        let rest = ts.skip(1);
        assert(forall|i: int, j: int|
            0 <= i < rest.len() && 0 <= j < rest[i].len() ==> #[trigger] rest[i][j] != ' ');
        lemma_tokens_join(rest);
        lemma_tokens_concat(ts[0], join_sp(rest));
        assert(seq![ts[0]] + rest =~= ts);
    }
}

/// Formatted integers hold no spaces.
pub proof fn lemma_fmt_i32_no_space(n: int)
    requires
        -2147483648 <= n <= 2147483647,
    ensures
        forall|j: int| 0 <= j < spec_fmt_i32(n).len() ==> #[trigger] spec_fmt_i32(n)[j] != ' ',
{
    let s = spec_fmt_i32(n);
    if n >= 0 {
        crate::numtext::lemma_fmt_nat(n);
        assert forall|j: int| 0 <= j < s.len() implies #[trigger] s[j] != ' ' by {
            assert(crate::numtext::is_digit(s[j]));
        }
    } else {
        crate::numtext::lemma_fmt_nat(-n);
        let t = crate::numtext::spec_fmt_nat(-n);
        assert forall|j: int| 0 <= j < s.len() implies #[trigger] s[j] != ' ' by {
            if j > 0 {
                assert(s[j] == t[j - 1]);
                assert(crate::numtext::is_digit(t[j - 1]));
            }
        }
    }
}

/// Formatted milli-unit values hold no spaces.
pub proof fn lemma_fmt_milli_no_space(m: int)
    requires
        -2147483647 <= m <= 2147483647,
    ensures
        forall|j: int|
            0 <= j < spec_fmt_milli(m).len() ==> #[trigger] spec_fmt_milli(m)[j] != ' ',
{
    let a = if m < 0 {
        -m
    } else {
        m
    };
    let u = a / 1000;
    let f = a % 1000;
    vstd::arithmetic::div_mod::lemma_div_pos_is_pos(a, 1000);
    crate::numtext::lemma_fmt_nat(u);
    let t = crate::numtext::spec_fmt_nat(u);
    let s = spec_fmt_milli(m);
    assert forall|j: int| 0 <= j < s.len() implies #[trigger] s[j] != ' ' by {
        let body = if f == 0 {
            t
        } else {
            t + seq!['.'] + crate::numtext::spec_fmt_milli_frac(m)
        };
        let k = if m < 0 {
            j - 1
        } else {
            j
        };
        if m < 0 && j == 0 {
        } else {
            assert(s[j] == body[k]);
            if k < t.len() {
                assert(body[k] == t[k]);
                assert(crate::numtext::is_digit(t[k]));
            } else if f != 0 {
                if k == t.len() {
                } else {
                    assert(body[k] == crate::numtext::spec_fmt_milli_frac(m)[k - t.len() - 1]);
                    assert(crate::numtext::is_digit(
                        crate::numtext::spec_fmt_milli_frac(m)[k - t.len() - 1],
                    ));
                }
            }
        }
    }
}

/// Law: command emission and parsing round-trip. Formatting a region,
/// color and id into a place command and classifying that string parses
/// the identical region, color and id back.
pub proof fn lemma_command_round_trip(
    f: (int, int, int),
    l: (int, int, int),
    c: (int, int, int, int),
    id: int,
)
    requires
        in_world(f),
        in_world(l),
        -2147483647 <= c.0 <= 2147483647,
        -2147483647 <= c.1 <= 2147483647,
        -2147483647 <= c.2 <= 2147483647,
        -2147483647 <= c.3 <= 2147483647,
        -2147483648 <= id <= 2147483647,
    ensures
        spec_cmd_kind(spec_command_text("/place"@, f, l, c, id)) == CmdKind::Place,
        spec_cmd_first(spec_command_text("/place"@, f, l, c, id)) == f,
        spec_cmd_last(spec_command_text("/place"@, f, l, c, id)) == l,
        spec_cmd_color(spec_command_text("/place"@, f, l, c, id)) == [
            c.0 as i32,
            c.1 as i32,
            c.2 as i32,
            c.3 as i32,
        ],
        spec_cmd_id(spec_command_text("/place"@, f, l, c, id)) == id,
{
    let ts = cmd_tokens("/place"@, f, l, c, id);
    let s = spec_command_text("/place"@, f, l, c, id);
    reveal_strlit("/place");
    assert forall|i: int, j: int|
        0 <= i < ts.len() && 0 <= j < ts[i].len() implies #[trigger] ts[i][j] != ' ' by {
        if i == 0 {
        } else if i == 1 {
            lemma_fmt_i32_no_space(f.0);
        } else if i == 2 {
            lemma_fmt_i32_no_space(f.1);
        } else if i == 3 {
            lemma_fmt_i32_no_space(f.2);
        } else if i == 4 {
            lemma_fmt_i32_no_space(l.0);
        } else if i == 5 {
            lemma_fmt_i32_no_space(l.1);
        } else if i == 6 {
            lemma_fmt_i32_no_space(l.2);
        } else if i == 7 {
            lemma_fmt_milli_no_space(c.0);
        } else if i == 8 {
            lemma_fmt_milli_no_space(c.1);
        } else if i == 9 {
            lemma_fmt_milli_no_space(c.2);
        } else if i == 10 {
            lemma_fmt_milli_no_space(c.3);
        } else if i == 11 {
            lemma_fmt_i32_no_space(id);
        }
    }
    lemma_tokens_join(ts);
    assert(spec_tokens(s) == ts);
    assert(ts[0] == "/place"@);
    assert(ts[0][0] == '/');
    crate::numtext::lemma_i32_round_trip(f.0);
    crate::numtext::lemma_i32_round_trip(f.1);
    crate::numtext::lemma_i32_round_trip(f.2);
    crate::numtext::lemma_i32_round_trip(l.0);
    crate::numtext::lemma_i32_round_trip(l.1);
    crate::numtext::lemma_i32_round_trip(l.2);
    crate::numtext::lemma_milli_round_trip(c.0);
    crate::numtext::lemma_milli_round_trip(c.1);
    crate::numtext::lemma_milli_round_trip(c.2);
    crate::numtext::lemma_milli_round_trip(c.3);
    crate::numtext::lemma_i32_round_trip(id);
    assert(edit_args_ok(ts));
    assert(spec_cmd_color(s) =~= [c.0 as i32, c.1 as i32, c.2 as i32, c.3 as i32]);
}

/// String equality on machine strings.
fn str_eq(a: &str, b: &str) -> (r: bool)
    ensures
        r == (a@ == b@),
{
    let n = a.unicode_len();
    if n != b.unicode_len() {
        return false;
    }
    let mut i: usize = 0;
    while i < n
        invariant
            0 <= i <= n,
            n == a@.len() == b@.len(),
            forall|j: int| 0 <= j < i ==> a@[j] == b@[j],
        decreases n - i,
    {
        if a.get_char(i) != b.get_char(i) {
            return false;
        }
        i += 1;
    }
    proof {
        assert(a@ =~= b@);
    }
    true
}

/// Join string parts with single spaces, exactly as `join_sp` does.
fn join_exec(parts: &Vec<String>, i: usize) -> (r: String)
    requires
        i < parts@.len(),
    ensures
        r@ == join_sp(parts.deep_view().skip(i as int)),
    decreases parts@.len() - i,
{
    let ghost ts = parts.deep_view().skip(i as int);
    if i == parts.len() - 1 {
        let r = parts[i].clone();
        proof {
            assert(ts.len() == 1);
            assert(ts[0] == parts.deep_view()[i as int]);
            assert(join_sp(ts) == ts[0]);
        }
        r
    } else {
        let rest = join_exec(parts, i + 1);
        let mut r = parts[i].clone();
        proof {
            reveal_strlit(" ");
        }
        r.append(" ");
        r.append(rest.as_str());
        proof {
            assert(ts.skip(1) =~= parts.deep_view().skip(i as int + 1));
            assert(ts[0] == parts.deep_view()[i as int]);
            assert(join_sp(ts) == ts[0] + seq![' '] + join_sp(ts.skip(1)));
            assert(" "@ =~= seq![' ']);
        }
        r
    }
}

/// Format an edit request into a command string; the inverse of the
/// parser's edit verbs.
pub fn format_command(
    head: &str,
    first: [i32; 3],
    last: [i32; 3],
    color: [i32; 4],
    id: i32,
) -> (r: String)
    requires
        forall|i: int| 0 <= i < 4 ==> color[i] > i32::MIN,
    ensures
        r@ == spec_command_text(
            head@,
            pos_of(first),
            pos_of(last),
            (color[0] as int, color[1] as int, color[2] as int, color[3] as int),
            id as int,
        ),
{
    let mut parts: Vec<String> = Vec::new();
    parts.push(String::from_str(head));
    parts.push(fmt_i32(first[0]));
    parts.push(fmt_i32(first[1]));
    parts.push(fmt_i32(first[2]));
    parts.push(fmt_i32(last[0]));
    parts.push(fmt_i32(last[1]));
    parts.push(fmt_i32(last[2]));
    parts.push(fmt_milli(color[0]));
    parts.push(fmt_milli(color[1]));
    parts.push(fmt_milli(color[2]));
    parts.push(fmt_milli(color[3]));
    parts.push(fmt_i32(id));
    parts.push(String::new());
    proof {
        assert(parts.deep_view() =~= cmd_tokens(
            head@,
            pos_of(first),
            pos_of(last),
            (color[0] as int, color[1] as int, color[2] as int, color[3] as int),
            id as int,
        ));
        assert(parts.deep_view().skip(0) =~= parts.deep_view());
    }
    join_exec(&parts, 0)
}

/// Build the echo log line of an edit verb.
fn build_edit_log(prefix: &str, first: [i32; 3], last: [i32; 3], id: i32) -> (r: String)
    ensures
        r@ == spec_edit_log(prefix@, pos_of(first), pos_of(last), id as int),
{
    proof {
        reveal_strlit(" ");
        reveal_strlit("; ");
        reveal_strlit(" ID =");
    }
    let mut out = String::from_str(prefix);
    out.append(fmt_i32(first[0]).as_str());
    out.append(" ");
    out.append(fmt_i32(first[1]).as_str());
    out.append(" ");
    out.append(fmt_i32(first[2]).as_str());
    out.append(" ");
    out.append("; ");
    out.append(fmt_i32(last[0]).as_str());
    out.append(" ");
    out.append(fmt_i32(last[1]).as_str());
    out.append(" ");
    out.append(fmt_i32(last[2]).as_str());
    out.append(" ");
    out.append(" ID =");
    out.append(fmt_i32(id).as_str());
    out.append(" ");
    proof {
        assert(out@ =~= spec_edit_log(prefix@, pos_of(first), pos_of(last), id as int));
    }
    out
}

/// An outcome that only reports a log line.
fn outcome_log(text: &str) -> (r: CommandOutcome)
    ensures
        r.log@ == text@,
        r.texture is None,
        !r.chat,
{
    CommandOutcome { log: String::from_str(text), texture: None, chat: false }
}

impl Descriptor {
    /// An empty command buffer.
    pub fn new() -> (r: Descriptor)
        ensures
            r.text@ == Seq::<char>::empty(),
    {
        Descriptor { text: String::new() }
    }

    /// Decode the buffered command line and dispatch it: an edit verb
    /// with eleven well-formed arguments routes a place, delete or
    /// paint through the chunk manager; a malformed or incomplete line
    /// is reported and mutates nothing; a debug verb selects a render
    /// target; a line without the command prefix is chat.
    #[verifier::rlimit(100)]
    #[verifier::spinoff_prover]
    pub fn parse_command(&self, manager: &mut ChunkManager) -> (r: CommandOutcome)
        requires
            old(manager).wf(),
        ensures
            final(manager).wf(),
            spec_cmd_kind(self.text@) == CmdKind::Place ==> route_place_rel(
                old(manager).chunk_list@,
                final(manager).chunk_list@,
                spec_cmd_first(self.text@),
                spec_cmd_last(self.text@),
                spec_cmd_color(self.text@),
                false,
                ChunkType::Persistent,
                spec_cmd_id(self.text@),
            ) && r.log@ == spec_edit_log(
                "Model placed at "@,
                spec_cmd_first(self.text@),
                spec_cmd_last(self.text@),
                spec_cmd_id(self.text@),
            ) && r.texture is None && !r.chat,
            spec_cmd_kind(self.text@) == CmdKind::Delete ==> route_place_rel(
                old(manager).chunk_list@,
                final(manager).chunk_list@,
                spec_cmd_first(self.text@),
                spec_cmd_last(self.text@),
                spec_cmd_color(self.text@),
                true,
                ChunkType::Persistent,
                spec_cmd_id(self.text@),
            ) && r.log@ == spec_edit_log(
                "Model deleted at "@,
                spec_cmd_first(self.text@),
                spec_cmd_last(self.text@),
                spec_cmd_id(self.text@),
            ) && r.texture is None && !r.chat,
            spec_cmd_kind(self.text@) == CmdKind::Draw ==> route_draw_rel(
                old(manager).chunk_list@,
                final(manager).chunk_list@,
                spec_cmd_first(self.text@),
                spec_cmd_last(self.text@),
                spec_cmd_color(self.text@),
                spec_cmd_id(self.text@),
            ) && r.log@ == spec_edit_log(
                "Model drawn at "@,
                spec_cmd_first(self.text@),
                spec_cmd_last(self.text@),
                spec_cmd_id(self.text@),
            ) && r.texture is None && !r.chat,
            spec_cmd_kind(self.text@) == CmdKind::Chat ==> *final(manager) == *old(manager)
                && r.chat && r.texture is None,
            spec_cmd_kind(self.text@) == CmdKind::Get ==> *final(manager) == *old(manager)
                && r.log@ == Seq::<char>::empty() && r.texture is None && !r.chat,
            spec_cmd_kind(self.text@) == CmdKind::TexDiffuse ==> *final(manager) == *old(manager)
                && r.texture == Some(TextureTarget::Diffuse) && r.log@ == "Texture changed"@
                && !r.chat,
            spec_cmd_kind(self.text@) == CmdKind::TexNormal ==> *final(manager) == *old(manager)
                && r.texture == Some(TextureTarget::Normal) && r.log@ == "Texture changed"@
                && !r.chat,
            spec_cmd_kind(self.text@) == CmdKind::TexDepth ==> *final(manager) == *old(manager)
                && r.texture == Some(TextureTarget::Depth) && r.log@ == "Texture changed"@
                && !r.chat,
            spec_cmd_kind(self.text@) == CmdKind::TexOutput ==> *final(manager) == *old(manager)
                && r.texture == Some(TextureTarget::Output) && r.log@ == "Texture changed"@
                && !r.chat,
            spec_cmd_kind(self.text@) == CmdKind::Insufficient ==> *final(manager) == *old(
                manager,
            ) && r.log@ == "Insufficient args"@ && r.texture is None && !r.chat,
            spec_cmd_kind(self.text@) == CmdKind::Malformed ==> *final(manager) == *old(manager)
                && r.log@ == "MalformedArgument"@ && r.texture is None && !r.chat,
            spec_cmd_kind(self.text@) == CmdKind::Unknown ==> *final(manager) == *old(manager)
                && r.log@ == "Fail to parse command"@ && r.texture is None && !r.chat,
    {
        let ghost tg = spec_tokens(self.text@);
        let toks = tokenize(self.text.as_str());
        proof {
            reveal_strlit("/place");
            reveal_strlit("/delete");
            reveal_strlit("/draw");
            reveal_strlit("/get");
            reveal_strlit("/diffuse");
            reveal_strlit("/normal");
            reveal_strlit("/depth");
            reveal_strlit("/output");
            assert(toks.deep_view() == tg);
            assert(toks@.len() == tg.len());
            assert(forall|i: int| 0 <= i < toks@.len() ==> (#[trigger] toks@[i])@ == tg[i]);
        }
        let t0 = toks[0].as_str();
        if t0.unicode_len() == 0 || t0.get_char(0) != '/' {
            proof {
                assert(spec_cmd_kind(self.text@) == CmdKind::Chat);
            }
            return CommandOutcome { log: String::new(), texture: None, chat: true };
        }
        let is_place = str_eq(t0, "/place");
        let is_delete = str_eq(t0, "/delete");
        let is_draw = str_eq(t0, "/draw");
        if is_place || is_delete || is_draw {
            if toks.len() < 12 {
                return outcome_log("Insufficient args");
            }
            let f0 = match parse_i32(toks[1].as_str()) {
                Some(v) => v,
                None => {
                    return outcome_log("MalformedArgument");
                },
            };
            let f1 = match parse_i32(toks[2].as_str()) {
                Some(v) => v,
                None => {
                    return outcome_log("MalformedArgument");
                },
            };
            let f2 = match parse_i32(toks[3].as_str()) {
                Some(v) => v,
                None => {
                    return outcome_log("MalformedArgument");
                },
            };
            let l0 = match parse_i32(toks[4].as_str()) {
                Some(v) => v,
                None => {
                    return outcome_log("MalformedArgument");
                },
            };
            let l1 = match parse_i32(toks[5].as_str()) {
                Some(v) => v,
                None => {
                    return outcome_log("MalformedArgument");
                },
            };
            let l2 = match parse_i32(toks[6].as_str()) {
                Some(v) => v,
                None => {
                    return outcome_log("MalformedArgument");
                },
            };
            if f0 < WORLD_MIN || f0 > WORLD_MAX || f1 < WORLD_MIN || f1 > WORLD_MAX || f2
                < WORLD_MIN || f2 > WORLD_MAX || l0 < WORLD_MIN || l0 > WORLD_MAX || l1 < WORLD_MIN
                || l1 > WORLD_MAX || l2 < WORLD_MIN || l2 > WORLD_MAX {
                return outcome_log("MalformedArgument");
            }
            let c0 = match parse_milli(toks[7].as_str()) {
                Some(v) => v,
                None => {
                    return outcome_log("MalformedArgument");
                },
            };
            let c1 = match parse_milli(toks[8].as_str()) {
                Some(v) => v,
                None => {
                    return outcome_log("MalformedArgument");
                },
            };
            let c2 = match parse_milli(toks[9].as_str()) {
                Some(v) => v,
                None => {
                    return outcome_log("MalformedArgument");
                },
            };
            let c3 = match parse_milli(toks[10].as_str()) {
                Some(v) => v,
                None => {
                    return outcome_log("MalformedArgument");
                },
            };
            let id = match parse_i32(toks[11].as_str()) {
                Some(v) => v,
                None => {
                    return outcome_log("MalformedArgument");
                },
            };
            let first = [f0, f1, f2];
            let last = [l0, l1, l2];
            let color = [c0, c1, c2, c3];
            proof {
                assert(edit_args_ok(tg));
                assert(pos_of(first) == spec_cmd_first(self.text@));
                assert(pos_of(last) == spec_cmd_last(self.text@));
                assert(color =~= spec_cmd_color(self.text@));
            }
            if is_draw {
                manager.draw(first, last, color, id);
                return outcome_log(build_edit_log("Model drawn at ", first, last, id).as_str());
            } else if is_place {
                manager.place(first, last, color, false, ChunkType::Persistent, id);
                return outcome_log(build_edit_log("Model placed at ", first, last, id).as_str());
            } else {
                manager.place(first, last, color, true, ChunkType::Persistent, id);
                return outcome_log(build_edit_log("Model deleted at ", first, last, id).as_str());
            }
        }
        if str_eq(t0, "/get") {
            proof {
                reveal_strlit("");
            }
            return outcome_log("");
        }
        if str_eq(t0, "/diffuse") {
            let mut r = outcome_log("Texture changed");
            r.texture = Some(TextureTarget::Diffuse);
            return r;
        }
        if str_eq(t0, "/normal") {
            let mut r = outcome_log("Texture changed");
            r.texture = Some(TextureTarget::Normal);
            return r;
        }
        if str_eq(t0, "/depth") {
            let mut r = outcome_log("Texture changed");
            r.texture = Some(TextureTarget::Depth);
            return r;
        }
        if str_eq(t0, "/output") {
            let mut r = outcome_log("Texture changed");
            r.texture = Some(TextureTarget::Output);
            return r;
        }
        outcome_log("Fail to parse command")
    }
}

} // verus!

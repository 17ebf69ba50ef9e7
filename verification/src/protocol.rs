//! The isolation protocol: one JSON value per line in each direction.
//! The child sends events — findings, log lines, and one terminal
//! `Done` or `Error` — and the parent answers each finding with the
//! stored identifier or an error message. Frames are canonical: the
//! decoder accepts exactly what the encoder emits, and a line that is
//! not such a frame ends the session.
use crate::chars::{chars_eq_str, chars_to_string, dec_i32, dec_nat, hex_char, hex_digit, push_i32, str_to_chars};
use crate::registry::Module;
use crate::store::{
    ipaddr_insert_post, link_insert_post, subdomain_insert_post, Database, Object, StoreError,
};
use vstd::prelude::*;

verus! {

/// Spec-level shape of a finding.
pub ghost enum ObjectV {
    Subdomain { domain_id: i32, value: Seq<char> },
    IpAddr { family: Seq<char>, value: Seq<char> },
    SubdomainIpAddr { subdomain_id: i32, ip_addr_id: i32 },
}

impl View for Object {
    type V = ObjectV;

    open spec fn view(&self) -> ObjectV {
        match *self {
            Object::Subdomain { domain_id, value } => ObjectV::Subdomain {
                domain_id,
                value: value@,
            },
            Object::IpAddr { family, value } => ObjectV::IpAddr { family: family@, value: value@ },
            Object::SubdomainIpAddr { subdomain_id, ip_addr_id } => ObjectV::SubdomainIpAddr {
                subdomain_id,
                ip_addr_id,
            },
        }
    }
}

/// A child-to-parent frame.
#[derive(Debug)]
pub enum Event {
    Object(Object),
    Info(String),
    Log(String),
    Error(String),
    Done,
}

/// Spec-level shape of an event.
pub ghost enum EventV {
    Object(ObjectV),
    Info(Seq<char>),
    Log(Seq<char>),
    Error(Seq<char>),
    Done,
}

impl View for Event {
    type V = EventV;

    open spec fn view(&self) -> EventV {
        match self {
            Event::Object(o) => EventV::Object(o@),
            Event::Info(s) => EventV::Info(s@),
            Event::Log(s) => EventV::Log(s@),
            Event::Error(s) => EventV::Error(s@),
            Event::Done => EventV::Done,
        }
    }
}

/// The parent's answer to one finding: the stored identifier, or why the
/// store refused it.
#[derive(Debug)]
pub enum Reply {
    Id(i32),
    Failure(String),
}

/// Spec-level shape of a reply.
pub ghost enum ReplyV {
    Id(i32),
    Failure(Seq<char>),
}

impl View for Reply {
    type V = ReplyV;

    open spec fn view(&self) -> ReplyV {
        match self {
            Reply::Id(n) => ReplyV::Id(*n),
            Reply::Failure(s) => ReplyV::Failure(s@),
        }
    }
}

/// The frame the parent writes once to start the child: the module and
/// the invocation argument, carried as raw JSON text.
#[derive(Debug)]
pub struct StartCommand {
    pub module: Module,
    pub arg: String,
}

impl StartCommand {
    pub fn new(module: Module, arg: String) -> (r: StartCommand)
        ensures
            r.module == module,
            r.arg == arg,
    {
        StartCommand { module, arg }
    }
}

/// JSON escaping of one character inside a string literal.
pub open spec fn jesc_char(c: char) -> Seq<char> {
    if c == '"' {
        seq!['\\', '"']
    } else if c == '\\' {
        seq!['\\', '\\']
    } else if c == '\n' {
        seq!['\\', 'n']
    } else if c == '\r' {
        seq!['\\', 'r']
    } else if c == '\t' {
        seq!['\\', 't']
    } else if c == '\u{8}' {
        seq!['\\', 'b']
    } else if c == '\u{c}' {
        seq!['\\', 'f']
    } else if (c as u32) < 32 {
        seq!['\\', 'u', '0', '0', hex_digit((c as u32) as int / 16), hex_digit(
            (c as u32) as int % 16,
        )]
    } else {
        seq![c]
    }
}

/// JSON escaping of a whole string.
pub open spec fn jesc(s: Seq<char>) -> Seq<char>
    decreases s.len(),
{
    if s.len() == 0 {
        Seq::empty()
    } else {
        jesc_char(s[0]) + jesc(s.drop_first())
    }
}

pub proof fn lemma_jesc_push(s: Seq<char>, c: char)
    ensures
        jesc(s.push(c)) == jesc(s) + jesc_char(c),
    decreases s.len(),
{
    if s.len() == 0 {
        assert(s.push(c).drop_first() =~= Seq::<char>::empty());
        assert(jesc(Seq::<char>::empty()) == Seq::<char>::empty());
        assert(s.push(c)[0] == c);
        assert(jesc(s.push(c)) =~= jesc_char(c));
        assert(jesc(s) + jesc_char(c) =~= jesc_char(c));
    } else {
        assert(s.push(c).drop_first() =~= s.drop_first().push(c));
        lemma_jesc_push(s.drop_first(), c);
        assert(jesc(s.push(c)) =~= jesc(s) + jesc_char(c));
    }
}

/// A JSON string literal.
pub open spec fn jstr(s: Seq<char>) -> Seq<char> {
    seq!['"'] + jesc(s) + seq!['"']
}

/// The canonical encoding of a finding.
pub open spec fn enc_object(o: ObjectV) -> Seq<char> {
    match o {
        ObjectV::Subdomain { domain_id, value } => "{\"Subdomain\":{\"domain_id\":"@ + dec_i32(
            domain_id as int,
        ) + ",\"value\":"@ + jstr(value) + "}}"@,
        ObjectV::IpAddr { family, value } => "{\"IpAddr\":{\"family\":"@ + jstr(family)
            + ",\"value\":"@ + jstr(value) + "}}"@,
        ObjectV::SubdomainIpAddr { subdomain_id, ip_addr_id } => "{\"SubdomainIpAddr\":{\"subdomain_id\":"@
            + dec_i32(subdomain_id as int) + ",\"ip_addr_id\":"@ + dec_i32(ip_addr_id as int)
            + "}}"@,
    }
}

/// The canonical encoding of an event frame.
pub open spec fn enc_event(e: EventV) -> Seq<char> {
    match e {
        EventV::Done => "\"Done\""@,
        EventV::Error(m) => "{\"Error\":"@ + jstr(m) + "}"@,
        EventV::Info(m) => "{\"Info\":"@ + jstr(m) + "}"@,
        EventV::Log(m) => "{\"Log\":"@ + jstr(m) + "}"@,
        EventV::Object(o) => "{\"Object\":"@ + enc_object(o) + "}"@,
    }
}

/// The canonical encoding of a reply frame.
pub open spec fn enc_reply(r: ReplyV) -> Seq<char> {
    match r {
        ReplyV::Id(n) => "{\"Ok\":"@ + dec_i32(n as int) + "}"@,
        ReplyV::Failure(m) => "{\"Err\":"@ + jstr(m) + "}"@,
    }
}

/// The canonical encoding of the start frame; the argument is embedded
/// as the raw JSON text it already is.
pub open spec fn enc_start(
    name: Seq<char>,
    author: Seq<char>,
    description: Seq<char>,
    version: Seq<char>,
    argument: Option<Seq<char>>,
    script: Seq<char>,
    arg: Seq<char>,
) -> Seq<char> {
    "{\"module\":{\"name\":"@ + jstr(name) + ",\"author\":"@ + jstr(author) + ",\"description\":"@
        + jstr(description) + ",\"version\":"@ + jstr(version) + ",\"argument\":"@ + (match argument {
        Some(a) => jstr(a),
        None => "null"@,
    }) + ",\"script\":"@ + jstr(script) + "},\"arg\":"@ + arg + "}"@
}

/// Appends a literal.
fn push_lit(out: &mut Vec<char>, lit: &str)
    ensures
        final(out)@ == old(out)@ + lit@,
{
    let n: usize = lit.unicode_len();
    let mut i: usize = 0;
    while i < n
        invariant
            n == lit@.len(),
            i <= n,
            out@ == old(out)@ + lit@.subrange(0, i as int),
        decreases n - i,
    {
        out.push(lit.get_char(i));
        i = i + 1;
        proof {
            assert(out@ =~= old(out)@ + lit@.subrange(0, i as int));
        }
    }
    proof {
        assert(out@ =~= old(out)@ + lit@);
    }
}

/// Appends a JSON string literal.
fn push_jstr(out: &mut Vec<char>, s: &str)
    ensures
        final(out)@ == old(out)@ + jstr(s@),
{
    let chars = str_to_chars(s);
    out.push('"');
    let mut i: usize = 0;
    while i < chars.len()
        invariant
            chars@ == s@,
            i <= chars@.len(),
            out@ == old(out)@ + seq!['"'] + jesc(s@.subrange(0, i as int)),
        decreases chars@.len() - i,
    {
        let c = chars[i];
        if c == '"' {
            out.push('\\');
            out.push('"');
        } else if c == '\\' {
            out.push('\\');
            out.push('\\');
        } else if c == '\n' {
            out.push('\\');
            out.push('n');
        } else if c == '\r' {
            out.push('\\');
            out.push('r');
        } else if c == '\t' {
            out.push('\\');
            out.push('t');
        } else if c == '\u{8}' {
            out.push('\\');
            out.push('b');
        } else if c == '\u{c}' {
            out.push('\\');
            out.push('f');
        } else if (c as u32) < 32 {
            let n = c as u32;
            proof {
                assert(n / 16 < 16);
                assert((n / 16) as int == (c as u32) as int / 16);
                assert((n % 16) as int == (c as u32) as int % 16);
            }
            out.push('\\');
            out.push('u');
            out.push('0');
            out.push('0');
            out.push(hex_char(n / 16));
            out.push(hex_char(n % 16));
        } else {
            out.push(c);
        }
        proof {
            lemma_jesc_push(s@.subrange(0, i as int), c);
            assert(s@.subrange(0, i + 1int) =~= s@.subrange(0, i as int).push(c));
            assert(out@ =~= old(out)@ + seq!['"'] + jesc(s@.subrange(0, i + 1int)));
        }
        i = i + 1;
    }
    out.push('"');
    proof {
        assert(s@.subrange(0, s@.len() as int) =~= s@);
        assert(out@ =~= old(out)@ + jstr(s@));
    }
}

fn push_object(out: &mut Vec<char>, o: &Object)
    ensures
        final(out)@ == old(out)@ + enc_object(o@),
{
    match o {
        Object::Subdomain { domain_id, value } => {
            push_lit(out, "{\"Subdomain\":{\"domain_id\":");
            push_i32(out, *domain_id);
            push_lit(out, ",\"value\":");
            push_jstr(out, value.as_str());
            push_lit(out, "}}");
        },
        Object::IpAddr { family, value } => {
            push_lit(out, "{\"IpAddr\":{\"family\":");
            push_jstr(out, family.as_str());
            push_lit(out, ",\"value\":");
            push_jstr(out, value.as_str());
            push_lit(out, "}}");
        },
        Object::SubdomainIpAddr { subdomain_id, ip_addr_id } => {
            push_lit(out, "{\"SubdomainIpAddr\":{\"subdomain_id\":");
            push_i32(out, *subdomain_id);
            push_lit(out, ",\"ip_addr_id\":");
            push_i32(out, *ip_addr_id);
            push_lit(out, "}}");
        },
    }
    proof {
        assert(out@ =~= old(out)@ + enc_object(o@));
    }
}

/// The canonical one-line encoding of an event frame.
pub fn encode_event(e: &Event) -> (r: String)
    ensures
        r@ == enc_event(e@),
{
    let mut out: Vec<char> = Vec::new();
    match e {
        Event::Done => {
            push_lit(&mut out, "\"Done\"");
        },
        Event::Error(m) => {
            push_lit(&mut out, "{\"Error\":");
            push_jstr(&mut out, m.as_str());
            push_lit(&mut out, "}");
        },
        Event::Info(m) => {
            push_lit(&mut out, "{\"Info\":");
            push_jstr(&mut out, m.as_str());
            push_lit(&mut out, "}");
        },
        Event::Log(m) => {
            push_lit(&mut out, "{\"Log\":");
            push_jstr(&mut out, m.as_str());
            push_lit(&mut out, "}");
        },
        Event::Object(o) => {
            push_lit(&mut out, "{\"Object\":");
            push_object(&mut out, o);
            push_lit(&mut out, "}");
        },
    }
    proof {
        assert(out@ =~= enc_event(e@));
    }
    chars_to_string(&out)
}

/// The canonical one-line encoding of a reply frame.
pub fn encode_reply(r: &Reply) -> (s: String)
    ensures
        s@ == enc_reply(r@),
{
    let mut out: Vec<char> = Vec::new();
    match r {
        Reply::Id(n) => {
            push_lit(&mut out, "{\"Ok\":");
            push_i32(&mut out, *n);
            push_lit(&mut out, "}");
        },
        Reply::Failure(m) => {
            push_lit(&mut out, "{\"Err\":");
            push_jstr(&mut out, m.as_str());
            push_lit(&mut out, "}");
        },
    }
    proof {
        assert(out@ =~= enc_reply(r@));
    }
    chars_to_string(&out)
}

/// The canonical one-line encoding of the start frame.
pub fn encode_start(cmd: &StartCommand) -> (s: String)
    ensures
        s@ == enc_start(
            cmd.module.name_v(),
            cmd.module.author_v(),
            cmd.module.description_v(),
            cmd.module.version_v(),
            cmd.module.argument_v(),
            cmd.module.script_v(),
            cmd.arg@,
        ),
{
    let mut out: Vec<char> = Vec::new();
    push_lit(&mut out, "{\"module\":{\"name\":");
    push_jstr(&mut out, cmd.module.name());
    push_lit(&mut out, ",\"author\":");
    push_jstr(&mut out, cmd.module.author());
    push_lit(&mut out, ",\"description\":");
    push_jstr(&mut out, cmd.module.description());
    push_lit(&mut out, ",\"version\":");
    push_jstr(&mut out, cmd.module.version());
    push_lit(&mut out, ",\"argument\":");
    match cmd.module.argument() {
        Some(a) => {
            push_jstr(&mut out, a.as_str());
        },
        None => {
            push_lit(&mut out, "null");
        },
    }
    push_lit(&mut out, ",\"script\":");
    push_jstr(&mut out, cmd.module.script());
    push_lit(&mut out, "},\"arg\":");
    push_lit(&mut out, cmd.arg.as_str());
    push_lit(&mut out, "}");
    proof {
        assert(out@ =~= enc_start(
            cmd.module.name_v(),
            cmd.module.author_v(),
            cmd.module.description_v(),
            cmd.module.version_v(),
            cmd.module.argument_v(),
            cmd.module.script_v(),
            cmd.arg@,
        ));
    }
    chars_to_string(&out)
}

// --- decoding ----------------------------------------------------------
//
// The decoder accepts exactly the canonical frames: whatever it returns
// re-encodes to its input, and every line the encoder can produce
// decodes. A line that is no canonical frame is a protocol error and
// yields none.

/// The literal stands at `pos`.
pub open spec fn lit_at(v: Seq<char>, pos: int, lit: Seq<char>) -> bool {
    0 <= pos && pos + lit.len() <= v.len() && v.subrange(pos, pos + lit.len()) == lit
}

pub open spec fn is_digit(c: char) -> bool {
    c == '0' || c == '1' || c == '2' || c == '3' || c == '4' || c == '5' || c == '6' || c == '7'
        || c == '8' || c == '9'
}

pub open spec fn digit_val(c: char) -> int {
    if c == '0' { 0 } else if c == '1' { 1 } else if c == '2' { 2 } else if c == '3' { 3 }
    else if c == '4' { 4 } else if c == '5' { 5 } else if c == '6' { 6 } else if c == '7' { 7 }
    else if c == '8' { 8 } else { 9 }
}

pub open spec fn is_lhex(c: char) -> bool {
    is_digit(c) || c == 'a' || c == 'b' || c == 'c' || c == 'd' || c == 'e' || c == 'f'
}

pub open spec fn hex_val(c: char) -> int {
    if is_digit(c) { digit_val(c) } else if c == 'a' { 10 } else if c == 'b' { 11 }
    else if c == 'c' { 12 } else if c == 'd' { 13 } else if c == 'e' { 14 } else { 15 }
}

/// Reads a JSON string's interior from `i` to its closing quote, undoing
/// the escaping `jesc` applied; yields the raw text and the index after
/// the closing quote. Only canonical escapes are accepted, and a raw
/// control character is refused.
pub open spec fn jscan(v: Seq<char>, i: int) -> Option<(Seq<char>, int)>
    decreases v.len() - i,
{
    if !(0 <= i < v.len()) {
        None
    } else if v[i] == '"' {
        Some((Seq::empty(), i + 1))
    } else if v[i] == '\\' {
        if i + 1 < v.len() {
            let e = v[i + 1];
            if e == 'u' {
                if i + 5 < v.len() && v[i + 2] == '0' && v[i + 3] == '0' && is_lhex(v[i + 4])
                    && is_lhex(v[i + 5]) && hex_val(v[i + 4]) < 2 {
                    let code = (16 * hex_val(v[i + 4]) + hex_val(v[i + 5])) as u32;
                    match jscan(v, i + 6) {
                        Some(t) => Some((seq![code as char] + t.0, t.1)),
                        None => None,
                    }
                } else {
                    None
                }
            } else if e == '"' || e == '\\' || e == 'n' || e == 'r' || e == 't' || e == 'b' || e
                == 'f' {
                let u = if e == '"' { '"' } else if e == '\\' { '\\' } else if e == 'n' { '\n' }
                    else if e == 'r' { '\r' } else if e == 't' { '\t' } else if e == 'b' { '\u{8}' }
                    else { '\u{c}' };
                match jscan(v, i + 2) {
                    Some(t) => Some((seq![u] + t.0, t.1)),
                    None => None,
                }
            } else {
                None
            }
        } else {
            None
        }
    } else if (v[i] as u32) < 32 {
        None
    } else {
        match jscan(v, i + 1) {
            Some(t) => Some((seq![v[i]] + t.0, t.1)),
            None => None,
        }
    }
}

/// A JSON string literal at `pos`: the opening quote, then its interior.
pub open spec fn jstring_at(v: Seq<char>, pos: int) -> Option<(Seq<char>, int)> {
    if 0 <= pos < v.len() && v[pos] == '"' {
        jscan(v, pos + 1)
    } else {
        None
    }
}

/// The first non-digit index at or after `i`.
pub open spec fn digits_end(v: Seq<char>, i: int) -> int
    decreases v.len() - i,
{
    if !(0 <= i < v.len()) {
        i
    } else if !is_digit(v[i]) {
        i
    } else {
        digits_end(v, i + 1)
    }
}

/// The value of the digits in `[i, e)`, folded onto `acc`.
pub open spec fn dval(v: Seq<char>, i: int, e: int, acc: int) -> int
    decreases e - i,
{
    if i >= e {
        acc
    } else {
        dval(v, i + 1, e, acc * 10 + digit_val(v[i]))
    }
}

/// Reads a decimal `i32` at `pos`: an optional sign, then at most ten
/// digits, within the type's range.
pub open spec fn iscan(v: Seq<char>, pos: int) -> Option<(i32, int)> {
    if !(0 <= pos < v.len()) {
        None
    } else {
        let neg = v[pos] == '-';
        let ds = if neg {
            pos + 1
        } else {
            pos
        };
        let de = digits_end(v, ds);
        if de == ds || de - ds > 10 {
            None
        } else {
            let n = dval(v, ds, de, 0);
            if neg {
                if n <= 0x8000_0000 {
                    Some(((-n) as i32, de))
                } else {
                    None
                }
            } else {
                if n <= 0x7fff_ffff {
                    Some((n as i32, de))
                } else {
                    None
                }
            }
        }
    }
}

/// The finding frame at `pos`, and the index after it.
pub open spec fn spec_object(v: Seq<char>, pos: int) -> Option<(ObjectV, int)> {
    if lit_at(v, pos, "{\"Subdomain\":{\"domain_id\":"@) {
        let p1 = pos + "{\"Subdomain\":{\"domain_id\":"@.len();
        match iscan(v, p1) {
            Some(t) => {
                if lit_at(v, t.1, ",\"value\":"@) {
                    let p2 = t.1 + ",\"value\":"@.len();
                    match jstring_at(v, p2) {
                        Some(u) => {
                            if lit_at(v, u.1, "}}"@) {
                                Some(
                                    (
                                        ObjectV::Subdomain { domain_id: t.0, value: u.0 },
                                        u.1 + "}}"@.len(),
                                    ),
                                )
                            } else {
                                None
                            }
                        },
                        None => None,
                    }
                } else {
                    None
                }
            },
            None => None,
        }
    } else if lit_at(v, pos, "{\"IpAddr\":{\"family\":"@) {
        let p1 = pos + "{\"IpAddr\":{\"family\":"@.len();
        match jstring_at(v, p1) {
            Some(t) => {
                if lit_at(v, t.1, ",\"value\":"@) {
                    let p2 = t.1 + ",\"value\":"@.len();
                    match jstring_at(v, p2) {
                        Some(u) => {
                            if lit_at(v, u.1, "}}"@) {
                                Some(
                                    (
                                        ObjectV::IpAddr { family: t.0, value: u.0 },
                                        u.1 + "}}"@.len(),
                                    ),
                                )
                            } else {
                                None
                            }
                        },
                        None => None,
                    }
                } else {
                    None
                }
            },
            None => None,
        }
    } else if lit_at(v, pos, "{\"SubdomainIpAddr\":{\"subdomain_id\":"@) {
        let p1 = pos + "{\"SubdomainIpAddr\":{\"subdomain_id\":"@.len();
        match iscan(v, p1) {
            Some(t) => {
                if lit_at(v, t.1, ",\"ip_addr_id\":"@) {
                    let p2 = t.1 + ",\"ip_addr_id\":"@.len();
                    match iscan(v, p2) {
                        Some(u) => {
                            if lit_at(v, u.1, "}}"@) {
                                Some(
                                    (
                                        ObjectV::SubdomainIpAddr {
                                            subdomain_id: t.0,
                                            ip_addr_id: u.0,
                                        },
                                        u.1 + "}}"@.len(),
                                    ),
                                )
                            } else {
                                None
                            }
                        },
                        None => None,
                    }
                } else {
                    None
                }
            },
            None => None,
        }
    } else {
        None
    }
}

/// The event frame a whole line decodes to.
pub open spec fn spec_event(v: Seq<char>) -> Option<EventV> {
    if lit_at(v, 0, "\"Done\""@) {
        if "\"Done\""@.len() == v.len() {
            Some(EventV::Done)
        } else {
            None
        }
    } else if lit_at(v, 0, "{\"Error\":"@) {
        match jstring_at(v, "{\"Error\":"@.len() as int) {
            Some(t) => if lit_at(v, t.1, "}"@) && t.1 + "}"@.len() == v.len() {
                Some(EventV::Error(t.0))
            } else {
                None
            },
            None => None,
        }
    } else if lit_at(v, 0, "{\"Info\":"@) {
        match jstring_at(v, "{\"Info\":"@.len() as int) {
            Some(t) => if lit_at(v, t.1, "}"@) && t.1 + "}"@.len() == v.len() {
                Some(EventV::Info(t.0))
            } else {
                None
            },
            None => None,
        }
    } else if lit_at(v, 0, "{\"Log\":"@) {
        match jstring_at(v, "{\"Log\":"@.len() as int) {
            Some(t) => if lit_at(v, t.1, "}"@) && t.1 + "}"@.len() == v.len() {
                Some(EventV::Log(t.0))
            } else {
                None
            },
            None => None,
        }
    } else if lit_at(v, 0, "{\"Object\":"@) {
        match spec_object(v, "{\"Object\":"@.len() as int) {
            Some(t) => if lit_at(v, t.1, "}"@) && t.1 + "}"@.len() == v.len() {
                Some(EventV::Object(t.0))
            } else {
                None
            },
            None => None,
        }
    } else {
        None
    }
}

/// The reply frame a whole line decodes to.
pub open spec fn spec_reply(v: Seq<char>) -> Option<ReplyV> {
    if lit_at(v, 0, "{\"Ok\":"@) {
        match iscan(v, "{\"Ok\":"@.len() as int) {
            Some(t) => if lit_at(v, t.1, "}"@) && t.1 + "}"@.len() == v.len() {
                Some(ReplyV::Id(t.0))
            } else {
                None
            },
            None => None,
        }
    } else if lit_at(v, 0, "{\"Err\":"@) {
        match jstring_at(v, "{\"Err\":"@.len() as int) {
            Some(t) => if lit_at(v, t.1, "}"@) && t.1 + "}"@.len() == v.len() {
                Some(ReplyV::Failure(t.0))
            } else {
                None
            },
            None => None,
        }
    } else {
        None
    }
}

/// Consumes a literal at `pos`.
fn eat_lit(v: &Vec<char>, pos: usize, lit: &str) -> (r: Option<usize>)
    ensures
        r matches Some(p) ==> lit_at(v@, pos as int, lit@) && p as int == pos + lit@.len() && pos
            <= p <= v@.len(),
        r is None ==> !lit_at(v@, pos as int, lit@),
{
    let n: usize = lit.unicode_len();
    let vn: usize = v.len();
    if vn < pos || vn - pos < n {
        return None;
    }
    let mut i: usize = 0;
    while i < n
        invariant
            n == lit@.len(),
            vn == v@.len(),
            pos + n <= vn,
            i <= n,
            forall|j: int| 0 <= j < i ==> v@[pos + j] == lit@[j],
        decreases n - i,
    {
        if v[pos + i] != lit.get_char(i) {
            proof {
                assert(v@.subrange(pos as int, pos + lit@.len())[i as int] != lit@[i as int]);
            }
            return None;
        }
        i = i + 1;
    }
    proof {
        assert(v@.subrange(pos as int, pos + lit@.len()) =~= lit@);
    }
    Some(pos + n)
}

fn hex_of(c: char) -> (r: Option<u32>)
    ensures
        match r {
            Some(d) => is_lhex(c) && d as int == hex_val(c) && d < 16,
            None => !is_lhex(c),
        },
{
    if c == '0' { Some(0) } else if c == '1' { Some(1) } else if c == '2' { Some(2) }
    else if c == '3' { Some(3) } else if c == '4' { Some(4) } else if c == '5' { Some(5) }
    else if c == '6' { Some(6) } else if c == '7' { Some(7) } else if c == '8' { Some(8) }
    else if c == '9' { Some(9) } else if c == 'a' { Some(10) } else if c == 'b' { Some(11) }
    else if c == 'c' { Some(12) } else if c == 'd' { Some(13) } else if c == 'e' { Some(14) }
    else if c == 'f' { Some(15) } else { None }
}

/// The control character with this code point.
fn ctrl_from_code(code: u32) -> (c: char)
    requires
        code < 32,
    ensures
        c == (code as char),
{
    let c: char = if code == 0 { '\u{0}' } else if code == 1 { '\u{1}' }
        else if code == 2 { '\u{2}' } else if code == 3 { '\u{3}' }
        else if code == 4 { '\u{4}' } else if code == 5 { '\u{5}' }
        else if code == 6 { '\u{6}' } else if code == 7 { '\u{7}' }
        else if code == 8 { '\u{8}' } else if code == 9 { '\u{9}' }
        else if code == 10 { '\u{a}' } else if code == 11 { '\u{b}' }
        else if code == 12 { '\u{c}' } else if code == 13 { '\u{d}' }
        else if code == 14 { '\u{e}' } else if code == 15 { '\u{f}' }
        else if code == 16 { '\u{10}' } else if code == 17 { '\u{11}' }
        else if code == 18 { '\u{12}' } else if code == 19 { '\u{13}' }
        else if code == 20 { '\u{14}' } else if code == 21 { '\u{15}' }
        else if code == 22 { '\u{16}' } else if code == 23 { '\u{17}' }
        else if code == 24 { '\u{18}' } else if code == 25 { '\u{19}' }
        else if code == 26 { '\u{1a}' } else if code == 27 { '\u{1b}' }
        else if code == 28 { '\u{1c}' } else if code == 29 { '\u{1d}' }
        else if code == 30 { '\u{1e}' } else { '\u{1f}' };
    proof {
        vstd::utf8::char_u32_cast(c, code);
    }
    c
}

fn eat_jscan(v: &Vec<char>, i: usize, out: &mut Vec<char>) -> (r: Option<usize>)
    ensures
        match jscan(v@, i as int) {
            Some(t) => r matches Some(p) && p as int == t.1 && final(out)@ == old(out)@ + t.0 && i
                < p <= v@.len(),
            None => r is None,
        },
    decreases v@.len() - i,
{
    if i >= v.len() {
        return None;
    }
    let c = v[i];
    if c == '"' {
        return Some(i + 1);
    }
    if c == '\\' {
        if i + 1 >= v.len() {
            return None;
        }
        let e = v[i + 1];
        if e == 'u' {
            if !(v.len() - i > 5 && v[i + 2] == '0' && v[i + 3] == '0') {
                return None;
            }
            let a = match hex_of(v[i + 4]) {
                Some(a) => a,
                None => {
                    return None;
                },
            };
            let b = match hex_of(v[i + 5]) {
                Some(b) => b,
                None => {
                    return None;
                },
            };
            if a >= 2 {
                return None;
            }
            let code = 16 * a + b;
            let u = ctrl_from_code(code);
            out.push(u);
            let r = eat_jscan(v, i + 6, out);
            proof {
                match jscan(v@, i + 6) {
                    Some(t) => {
                        assert(out@ =~= old(out)@ + (seq![u] + t.0));
                    },
                    None => {},
                }
            }
            return r;
        }
        let u: char = if e == '"' { '"' } else if e == '\\' { '\\' } else if e == 'n' { '\n' }
            else if e == 'r' { '\r' } else if e == 't' { '\t' } else if e == 'b' { '\u{8}' }
            else if e == 'f' { '\u{c}' } else {
            return None;
        };
        out.push(u);
        let r = eat_jscan(v, i + 2, out);
        proof {
            match jscan(v@, i + 2) {
                Some(t) => {
                    assert(out@ =~= old(out)@ + (seq![u] + t.0));
                },
                None => {},
            }
        }
        return r;
    }
    if (c as u32) < 32 {
        return None;
    }
    out.push(c);
    let r = eat_jscan(v, i + 1, out);
    proof {
        match jscan(v@, i + 1) {
            Some(t) => {
                assert(out@ =~= old(out)@ + (seq![c] + t.0));
            },
            None => {},
        }
    }
    r
}

/// Consumes a JSON string literal at `pos`, unescaping it.
fn eat_string(v: &Vec<char>, pos: usize) -> (r: Option<(String, usize)>)
    ensures
        match jstring_at(v@, pos as int) {
            Some(t) => r matches Some(p) && p.0@ == t.0 && p.1 as int == t.1 && pos < p.1
                <= v@.len(),
            None => r is None,
        },
{
    if pos >= v.len() || v[pos] != '"' {
        return None;
    }
    let mut out: Vec<char> = Vec::new();
    match eat_jscan(v, pos + 1, &mut out) {
        Some(p) => Some((chars_to_string(&out), p)),
        None => None,
    }
}

fn digits_end_exec(v: &Vec<char>, i: usize) -> (r: usize)
    ensures
        r as int == digits_end(v@, i as int),
        i <= r <= vstd::math::max(i as int, v@.len() as int),
    decreases v@.len() - i,
{
    if i >= v.len() {
        return i;
    }
    let c = v[i];
    let digit = c == '0' || c == '1' || c == '2' || c == '3' || c == '4' || c == '5' || c == '6'
        || c == '7' || c == '8' || c == '9';
    if !digit {
        i
    } else {
        digits_end_exec(v, i + 1)
    }
}

/// Consumes a decimal integer at `pos`.
fn eat_i32(v: &Vec<char>, pos: usize) -> (r: Option<(i32, usize)>)
    requires
        pos <= v@.len(),
    ensures
        match iscan(v@, pos as int) {
            Some(t) => r matches Some(p) && p.0 == t.0 && p.1 as int == t.1 && pos < p.1
                <= v@.len(),
            None => r is None,
        },
{
    if pos >= v.len() {
        return None;
    }
    let neg = v[pos] == '-';
    let ds: usize = if neg {
        pos + 1
    } else {
        pos
    };
    let de = digits_end_exec(v, ds);
    if de == ds || de - ds > 10 {
        return None;
    }
    let mut acc: i64 = 0;
    let mut i: usize = ds;
    while i < de
        invariant
            ds <= i <= de <= v@.len(),
            de - ds <= 10,
            de as int == digits_end(v@, ds as int),
            0 <= acc < pow10((i - ds) as nat),
            dval(v@, ds as int, de as int, 0) == dval(v@, i as int, de as int, acc as int),
        decreases de - i,
    {
        proof {
            lemma_digits_end_digits(v@, ds as int, i as int);
            lemma_pow10_le((i - ds) as nat, 9);
            lemma_pow10_concrete();
            assert(pow10((i + 1 - ds) as nat) == 10 * pow10((i - ds) as nat));
        }
        let c = v[i];
        let d: i64 = if c == '0' { 0 } else if c == '1' { 1 } else if c == '2' { 2 }
            else if c == '3' { 3 } else if c == '4' { 4 } else if c == '5' { 5 }
            else if c == '6' { 6 } else if c == '7' { 7 } else if c == '8' { 8 } else { 9 };
        acc = acc * 10 + d;
        i = i + 1;
    }
    proof {
        assert(dval(v@, de as int, de as int, acc as int) == acc as int);
    }
    if neg {
        if acc > 0x8000_0000i64 {
            return None;
        }
        Some(((-acc) as i32, de))
    } else {
        if acc > 0x7fff_ffffi64 {
            return None;
        }
        Some((acc as i32, de))
    }
}

/// Ten to the power `k`.
pub open spec fn pow10(k: nat) -> int
    decreases k,
{
    if k == 0 {
        1
    } else {
        10 * pow10((k - 1) as nat)
    }
}

pub proof fn lemma_pow10_concrete()
    ensures
        pow10(9) == 1000000000,
        pow10(10) == 10000000000,
{
    assert(pow10(0) == 1);
    assert(pow10(1) == 10);
    assert(pow10(2) == 100);
    assert(pow10(3) == 1000);
    assert(pow10(4) == 10000);
    assert(pow10(5) == 100000);
    assert(pow10(6) == 1000000);
    assert(pow10(7) == 10000000);
    assert(pow10(8) == 100000000);
    assert(pow10(9) == 1000000000);
    assert(pow10(10) == 10000000000);
}

pub proof fn lemma_pow10_le(a: nat, b: nat)
    requires
        a <= b,
    ensures
        pow10(a) <= pow10(b),
        pow10(a) >= 1,
    decreases b,
{
    if b == 0 {
    } else if a == b {
        lemma_pow10_le((b - 1) as nat, (b - 1) as nat);
    } else {
        lemma_pow10_le(a, (b - 1) as nat);
    }
}

/// Every index before the digits' end holds a digit.
pub proof fn lemma_digits_end_digits(v: Seq<char>, i: int, j: int)
    requires
        0 <= i <= j,
        j < digits_end(v, i),
    ensures
        j < v.len() && is_digit(v[j]),
    decreases j - i,
{
    if i < j {
        lemma_digits_end_digits(v, i + 1, j);
    }
}

fn parse_object(v: &Vec<char>, pos: usize) -> (r: Option<(Object, usize)>)
    requires
        pos <= v@.len(),
    ensures
        match spec_object(v@, pos as int) {
            Some(t) => r matches Some(p) && p.0@ == t.0 && p.1 as int == t.1 && p.1 <= v@.len(),
            None => r is None,
        },
{
    if let Some(p) = eat_lit(v, pos, "{\"Subdomain\":{\"domain_id\":") {
        let (domain_id, p) = match eat_i32(v, p) {
            Some(x) => x,
            None => {
                return None;
            },
        };
        let p = match eat_lit(v, p, ",\"value\":") {
            Some(x) => x,
            None => {
                return None;
            },
        };
        let (value, p) = match eat_string(v, p) {
            Some(x) => x,
            None => {
                return None;
            },
        };
        let p = match eat_lit(v, p, "}}") {
            Some(x) => x,
            None => {
                return None;
            },
        };
        return Some((Object::Subdomain { domain_id, value }, p));
    }
    if let Some(p) = eat_lit(v, pos, "{\"IpAddr\":{\"family\":") {
        let (family, p) = match eat_string(v, p) {
            Some(x) => x,
            None => {
                return None;
            },
        };
        let p = match eat_lit(v, p, ",\"value\":") {
            Some(x) => x,
            None => {
                return None;
            },
        };
        let (value, p) = match eat_string(v, p) {
            Some(x) => x,
            None => {
                return None;
            },
        };
        let p = match eat_lit(v, p, "}}") {
            Some(x) => x,
            None => {
                return None;
            },
        };
        return Some((Object::IpAddr { family, value }, p));
    }
    if let Some(p) = eat_lit(v, pos, "{\"SubdomainIpAddr\":{\"subdomain_id\":") {
        let (subdomain_id, p) = match eat_i32(v, p) {
            Some(x) => x,
            None => {
                return None;
            },
        };
        let p = match eat_lit(v, p, ",\"ip_addr_id\":") {
            Some(x) => x,
            None => {
                return None;
            },
        };
        let (ip_addr_id, p) = match eat_i32(v, p) {
            Some(x) => x,
            None => {
                return None;
            },
        };
        let p = match eat_lit(v, p, "}}") {
            Some(x) => x,
            None => {
                return None;
            },
        };
        return Some((Object::SubdomainIpAddr { subdomain_id, ip_addr_id }, p));
    }
    None
}

fn parse_event(v: &Vec<char>) -> (r: Option<Event>)
    ensures
        match spec_event(v@) {
            Some(ev) => r matches Some(x) && x@ == ev,
            None => r is None,
        },
{
    if let Some(p) = eat_lit(v, 0, "\"Done\"") {
        if p == v.len() {
            return Some(Event::Done);
        }
        return None;
    }
    if let Some(p) = eat_lit(v, 0, "{\"Error\":") {
        if let Some((m, p)) = eat_string(v, p) {
            if let Some(p) = eat_lit(v, p, "}") {
                if p == v.len() {
                    return Some(Event::Error(m));
                }
            }
        }
        return None;
    }
    if let Some(p) = eat_lit(v, 0, "{\"Info\":") {
        if let Some((m, p)) = eat_string(v, p) {
            if let Some(p) = eat_lit(v, p, "}") {
                if p == v.len() {
                    return Some(Event::Info(m));
                }
            }
        }
        return None;
    }
    if let Some(p) = eat_lit(v, 0, "{\"Log\":") {
        if let Some((m, p)) = eat_string(v, p) {
            if let Some(p) = eat_lit(v, p, "}") {
                if p == v.len() {
                    return Some(Event::Log(m));
                }
            }
        }
        return None;
    }
    if let Some(p) = eat_lit(v, 0, "{\"Object\":") {
        if let Some((o, p)) = parse_object(v, p) {
            if let Some(p) = eat_lit(v, p, "}") {
                if p == v.len() {
                    return Some(Event::Object(o));
                }
            }
        }
        return None;
    }
    None
}

fn parse_reply(v: &Vec<char>) -> (r: Option<Reply>)
    ensures
        match spec_reply(v@) {
            Some(rv) => r matches Some(x) && x@ == rv,
            None => r is None,
        },
{
    if let Some(p) = eat_lit(v, 0, "{\"Ok\":") {
        if let Some((n, p)) = eat_i32(v, p) {
            if let Some(p) = eat_lit(v, p, "}") {
                if p == v.len() {
                    return Some(Reply::Id(n));
                }
            }
        }
        return None;
    }
    if let Some(p) = eat_lit(v, 0, "{\"Err\":") {
        if let Some((m, p)) = eat_string(v, p) {
            if let Some(p) = eat_lit(v, p, "}") {
                if p == v.len() {
                    return Some(Reply::Failure(m));
                }
            }
        }
        return None;
    }
    None
}

/// Decodes one event line: the decoder accepts a line exactly when it is
/// the canonical encoding of an event, and then returns that event.
pub fn decode_event(line: &str) -> (r: Option<Event>)
    ensures
        r matches Some(e) ==> line@ == enc_event(e@),
        (exists|e: EventV| line@ == enc_event(e)) ==> r is Some,
{
    let v = str_to_chars(line);
    proof {
        if exists|e: EventV| line@ == enc_event(e) {
            let e = choose|e: EventV| line@ == enc_event(e);
            lemma_event_complete(v@, e);
        }
    }
    match parse_event(&v) {
        Some(e) => {
            let again = encode_event(&e);
            if chars_eq_str(&v, again.as_str()) {
                Some(e)
            } else {
                None
            }
        },
        None => None,
    }
}

/// Decodes one reply line: accepted exactly when it is the canonical
/// encoding of a reply.
pub fn decode_reply(line: &str) -> (r: Option<Reply>)
    ensures
        r matches Some(rep) ==> line@ == enc_reply(rep@),
        (exists|rv: ReplyV| line@ == enc_reply(rv)) ==> r is Some,
{
    let v = str_to_chars(line);
    proof {
        if exists|rv: ReplyV| line@ == enc_reply(rv) {
            let rv = choose|rv: ReplyV| line@ == enc_reply(rv);
            lemma_reply_complete(v@, rv);
        }
    }
    match parse_reply(&v) {
        Some(rep) => {
            let again = encode_reply(&rep);
            if chars_eq_str(&v, again.as_str()) {
                Some(rep)
            } else {
                None
            }
        },
        None => None,
    }
}




// --- completeness of the decoder ----------------------------------------

/// Splitting the suffix at `pos` into a head and a tail places the head
/// at `pos` and the tail right after it.
pub proof fn lemma_suffix_shift(v: Seq<char>, pos: int, a: Seq<char>, b: Seq<char>)
    requires
        0 <= pos <= v.len(),
        v.subrange(pos, v.len() as int) == a + b,
    ensures
        pos + a.len() + b.len() == v.len(),
        v.subrange(pos, pos + a.len()) == a,
        v.subrange(pos + a.len(), v.len() as int) == b,
{
    let suf = v.subrange(pos, v.len() as int);
    assert(suf.len() == a.len() + b.len());
    assert forall|j: int| 0 <= j < a.len() implies v.subrange(pos, pos + a.len())[j] == a[j] by {
        assert(v.subrange(pos, pos + a.len())[j] == v[pos + j]);
        assert(suf[j] == v[pos + j]);
        assert(suf[j] == (a + b)[j]);
    }
    assert(v.subrange(pos, pos + a.len()) =~= a);
    assert forall|j: int|
        0 <= j < b.len() implies v.subrange(pos + a.len(), v.len() as int)[j] == b[j] by {
        assert(v.subrange(pos + a.len(), v.len() as int)[j] == v[pos + a.len() + j]);
        assert(suf[a.len() + j] == v[pos + a.len() + j]);
        assert(suf[a.len() + j] == (a + b)[a.len() + j]);
    }
    assert(v.subrange(pos + a.len(), v.len() as int) =~= b);
}

/// The characters of the suffix's head stand at `pos` onwards.
pub proof fn lemma_head_chars(v: Seq<char>, pos: int, a: Seq<char>)
    requires
        0 <= pos,
        pos + a.len() <= v.len(),
        v.subrange(pos, pos + a.len()) == a,
    ensures
        forall|j: int| 0 <= j < a.len() ==> v[pos + j] == #[trigger] a[j],
{
    assert forall|j: int| 0 <= j < a.len() implies v[pos + j] == #[trigger] a[j] by {
        assert(v.subrange(pos, pos + a.len())[j] == v[pos + j]);
    }
}

/// Scanning the escaped form of a text recovers exactly that text.
pub proof fn lemma_jscan_complete(v: Seq<char>, i: int, s: Seq<char>, rest: Seq<char>)
    requires
        0 <= i <= v.len(),
        v.subrange(i, v.len() as int) == jesc(s) + seq!['"'] + rest,
    ensures
        jscan(v, i) == Some((s, i + jesc(s).len() + 1)),
    decreases s.len(),
{
    let suf = v.subrange(i, v.len() as int);
    if s.len() == 0 {
        assert(jesc(s) == Seq::<char>::empty());
        assert(suf =~= seq!['"'] + rest);
        lemma_suffix_shift(v, i, seq!['"'], rest);
        lemma_head_chars(v, i, seq!['"']);
        assert(v[i + 0] == seq!['"'][0]);
        assert(v[i] == '"');
        assert(jscan(v, i) == Some((Seq::<char>::empty(), i + 1)));
        assert(s =~= Seq::<char>::empty());
    } else {
        let c = s[0];
        let s2 = s.drop_first();
        assert(jesc(s) == jesc_char(c) + jesc(s2));
        let k = jesc_char(c).len();
        assert(suf.len() == jesc(s).len() + 1 + rest.len());
        assert(suf =~= jesc_char(c) + (jesc(s2) + seq!['"'] + rest));
        lemma_suffix_shift(v, i, jesc_char(c), jesc(s2) + seq!['"'] + rest);
        lemma_head_chars(v, i, jesc_char(c));
        assert(forall|j: int| 0 <= j < k ==> v[i + j] == #[trigger] jesc_char(c)[j]);
        assert(v.subrange(i + k, v.len() as int) == jesc(s2) + seq!['"'] + rest);
        if c == '"' || c == '\\' || c == '\n' || c == '\r' || c == '\t' || c == '\u{8}' || c
            == '\u{c}' {
            assert(v[i] == '\\');
            let e = v[i + 1];
            assert(e != 'u');
            lemma_jscan_complete(v, i + 2, s2, rest);
            assert(jscan(v, i) == Some((seq![c] + s2, i + jesc(s).len() + 1)));
            assert(seq![c] + s2 =~= s);
        } else if (c as u32) < 32 {
            let u = c as u32;
            assert(v[i] == '\\');
            assert(v[i + 1] == 'u');
            assert(v[i + 2] == '0');
            assert(v[i + 3] == '0');
            let h1 = hex_digit(u as int / 16);
            let h2 = hex_digit(u as int % 16);
            assert(v[i + 4] == h1);
            assert(v[i + 5] == h2);
            assert(is_lhex(h1) && hex_val(h1) == u as int / 16);
            assert(is_lhex(h2) && hex_val(h2) == u as int % 16);
            assert(hex_val(h1) < 2);
            let code = (16 * hex_val(v[i + 4]) + hex_val(v[i + 5])) as u32;
            assert(code == u);
            vstd::utf8::char_u32_cast(c, code);
            assert(code as char == c);
            lemma_jscan_complete(v, i + 6, s2, rest);
            assert(jscan(v, i) == Some((seq![c] + s2, i + jesc(s).len() + 1)));
            assert(seq![c] + s2 =~= s);
        } else {
            assert(jesc_char(c) == seq![c]);
            assert(v[i] == jesc_char(c)[0]);
            assert(v[i] == c);
            assert(c != '"' && c != '\\' && !((c as u32) < 32));
            lemma_jscan_complete(v, i + 1, s2, rest);
            assert(jscan(v, i) == Some((seq![c] + s2, i + jesc(s).len() + 1)));
            assert(seq![c] + s2 =~= s);
        }
    }
}

/// A JSON string literal standing at `pos` scans to its text.
pub proof fn lemma_jstring_at(v: Seq<char>, pos: int, s: Seq<char>, rest: Seq<char>)
    requires
        0 <= pos <= v.len(),
        v.subrange(pos, v.len() as int) == jstr(s) + rest,
    ensures
        jstring_at(v, pos) == Some((s, pos + jstr(s).len())),
{
    assert(v.subrange(pos, v.len() as int) =~= seq!['"'] + (jesc(s) + seq!['"'] + rest));
    lemma_suffix_shift(v, pos, seq!['"'], jesc(s) + seq!['"'] + rest);
    lemma_head_chars(v, pos, seq!['"']);
    assert(v[pos + 0] == seq!['"'][0]);
    assert(v[pos] == '"');
    lemma_jscan_complete(v, pos + 1, s, rest);
    assert(jstr(s).len() == jesc(s).len() + 2);
}

/// Every rendered digit is a digit.
pub proof fn lemma_dec_nat_digits(n: int)
    requires
        0 <= n,
    ensures
        forall|k: int| 0 <= k < dec_nat(n).len() ==> is_digit(#[trigger] dec_nat(n)[k]),
    decreases n,
{
    if n < 10 {
        assert(is_digit(hex_digit(if 0 <= n { n } else { 0 })));
    } else {
        lemma_dec_nat_digits(n / 10);
        assert(is_digit(hex_digit(n % 10)));
        assert(forall|k: int|
            0 <= k < dec_nat(n / 10).len() ==> #[trigger] dec_nat(n)[k] == dec_nat(n / 10)[k]);
        assert(dec_nat(n)[dec_nat(n).len() - 1] == hex_digit(n % 10));
    }
}

/// A number below ten to the `b` renders in at most `b` digits.
pub proof fn lemma_dec_nat_len(n: int, b: nat)
    requires
        0 <= n < pow10(b),
        1 <= b,
    ensures
        1 <= dec_nat(n).len() <= b,
    decreases b,
{
    if n < 10 {
    } else {
        assert(pow10(b) == 10 * pow10((b - 1) as nat));
        lemma_dec_nat_len(n / 10, (b - 1) as nat);
    }
}

/// The digit fold peels its last digit.
pub proof fn lemma_dval_snoc(v: Seq<char>, i: int, e: int, a: int)
    requires
        i < e,
    ensures
        dval(v, i, e, a) == dval(v, i, e - 1, a) * 10 + digit_val(v[e - 1]),
    decreases e - i,
{
    if i + 1 == e {
        assert(dval(v, i + 1, e, a * 10 + digit_val(v[i])) == a * 10 + digit_val(v[i]));
        assert(dval(v, i, e, a) == a * 10 + digit_val(v[i]));
        assert(dval(v, i, e - 1, a) == a);
    } else {
        lemma_dval_snoc(v, i + 1, e, a * 10 + digit_val(v[i]));
        assert(dval(v, i, e, a) == dval(v, i + 1, e, a * 10 + digit_val(v[i])));
        assert(dval(v, i, e - 1, a) == dval(v, i + 1, e - 1, a * 10 + digit_val(v[i])));
    }
}

/// Folding the rendered digits of `n` yields `n`.
pub proof fn lemma_dval_dec(n: int, v: Seq<char>, i: int)
    requires
        0 <= n,
        0 <= i,
        i + dec_nat(n).len() <= v.len(),
        v.subrange(i, i + dec_nat(n).len()) == dec_nat(n),
    ensures
        dval(v, i, i + dec_nat(n).len(), 0) == n,
    decreases n,
{
    let e = i + dec_nat(n).len();
    if n < 10 {
        assert(v[i] == dec_nat(n)[0]);
        assert(digit_val(hex_digit(n)) == n);
        assert(dval(v, i, e, 0) == dval(v, i + 1, e, digit_val(v[i])));
    } else {
        assert(dec_nat(n) == dec_nat(n / 10) + seq![hex_digit(n % 10)]);
        assert(v.subrange(i, i + dec_nat(n / 10).len()) =~= dec_nat(n / 10));
        lemma_dval_dec(n / 10, v, i);
        lemma_dval_snoc(v, i, e, 0);
        assert(v[e - 1] == dec_nat(n)[dec_nat(n).len() - 1]);
        assert(digit_val(hex_digit(n % 10)) == n % 10);
    }
}

/// The first non-digit index is where the digits stop.
pub proof fn lemma_digits_end_at(v: Seq<char>, i: int, e: int)
    requires
        0 <= i <= e <= v.len(),
        forall|j: int| i <= j < e ==> is_digit(#[trigger] v[j]),
        e == v.len() || !is_digit(v[e]),
    ensures
        digits_end(v, i) == e,
    decreases e - i,
{
    if i < e {
        lemma_digits_end_at(v, i + 1, e);
    }
}

/// A rendered `i32` standing at `pos`, followed by no digit, scans back
/// to the same number.
pub proof fn lemma_iscan_dec(v: Seq<char>, pos: int, n: i32, rest: Seq<char>)
    requires
        0 <= pos <= v.len(),
        v.subrange(pos, v.len() as int) == dec_i32(n as int) + rest,
        rest.len() > 0 ==> !is_digit(rest[0]),
    ensures
        iscan(v, pos) == Some((n, pos + dec_i32(n as int).len())),
{
    let m = n as int;
    lemma_pow10_concrete();
    let suf = v.subrange(pos, v.len() as int);
    if m >= 0 {
        let ds = pos;
        let de = pos + dec_nat(m).len();
        lemma_dec_nat_digits(m);
        lemma_dec_nat_len(m, 10);
        assert(dec_i32(m) == dec_nat(m));
        lemma_suffix_shift(v, pos, dec_nat(m), rest);
        lemma_head_chars(v, pos, dec_nat(m));
        assert forall|j: int| ds <= j < de implies is_digit(#[trigger] v[j]) by {
            assert(v[ds + (j - ds)] == dec_nat(m)[j - ds]);
            assert(is_digit(dec_nat(m)[j - ds]));
        }
        assert(v[pos + 0] == dec_nat(m)[0]);
        assert(v[pos] == dec_nat(m)[0]);
        assert(is_digit(v[pos]));
        assert(!is_digit('-'));
        assert(v[pos] != '-');
        if de < v.len() {
            lemma_head_chars(v, de, rest);
            assert(v[de + 0] == rest[0]);
            assert(v[de] == rest[0]);
        }
        lemma_digits_end_at(v, ds, de);
        assert(v.subrange(ds, de) == dec_nat(m));
        lemma_dval_dec(m, v, ds);
        assert(m <= 0x7fff_ffff);
    } else {
        assert(dec_i32(m) == seq!['-'] + dec_nat(-m));
        assert(suf =~= seq!['-'] + (dec_nat(-m) + rest));
        lemma_suffix_shift(v, pos, seq!['-'], dec_nat(-m) + rest);
        lemma_head_chars(v, pos, seq!['-']);
        assert(v[pos + 0] == seq!['-'][0]);
        assert(v[pos] == '-');
        let ds = pos + 1;
        let de = ds + dec_nat(-m).len();
        lemma_dec_nat_digits(-m);
        lemma_dec_nat_len(-m, 10);
        lemma_suffix_shift(v, ds, dec_nat(-m), rest);
        lemma_head_chars(v, ds, dec_nat(-m));
        assert forall|j: int| ds <= j < de implies is_digit(#[trigger] v[j]) by {
            assert(v[ds + (j - ds)] == dec_nat(-m)[j - ds]);
            assert(is_digit(dec_nat(-m)[j - ds]));
        }
        if de < v.len() {
            lemma_head_chars(v, de, rest);
            assert(v[de + 0] == rest[0]);
            assert(v[de] == rest[0]);
        }
        lemma_digits_end_at(v, ds, de);
        assert(v.subrange(ds, de) == dec_nat(-m));
        lemma_dval_dec(-m, v, ds);
        assert(-m <= 0x8000_0000);
        assert(((-(-m)) as i32) == n);
    }
}

/// A literal prefix of the remaining text is read exactly.
pub proof fn lemma_lit_prefix(v: Seq<char>, pos: int, lit: Seq<char>, rest: Seq<char>)
    requires
        0 <= pos <= v.len(),
        v.subrange(pos, v.len() as int) == lit + rest,
    ensures
        lit_at(v, pos, lit),
        v.subrange(pos + lit.len(), v.len() as int) == rest,
    decreases 0int,
{
    lemma_suffix_shift(v, pos, lit, rest);
}

/// A finding frame standing at `pos` decodes to the finding.
pub proof fn lemma_object_at(v: Seq<char>, pos: int, o: ObjectV, tail: Seq<char>)
    requires
        0 <= pos <= v.len(),
        v.subrange(pos, v.len() as int) == enc_object(o) + tail,
    ensures
        spec_object(v, pos) == Some((o, pos + enc_object(o).len())),
{
    reveal_strlit("{\"Subdomain\":{\"domain_id\":");
    reveal_strlit("{\"IpAddr\":{\"family\":");
    reveal_strlit("{\"SubdomainIpAddr\":{\"subdomain_id\":");
    reveal_strlit(",\"value\":");
    reveal_strlit(",\"ip_addr_id\":");
    reveal_strlit("}}");
    let sub_p = "{\"Subdomain\":{\"domain_id\":"@;
    let ip_p = "{\"IpAddr\":{\"family\":"@;
    let link_p = "{\"SubdomainIpAddr\":{\"subdomain_id\":"@;
    match o {
        ObjectV::Subdomain { domain_id, value } => {
            let rest3 = jstr(value) + ("}}"@ + tail);
            let rest2 = ",\"value\":"@ + rest3;
            let rest1 = dec_i32(domain_id as int) + rest2;
            assert(v.subrange(pos, v.len() as int) =~= sub_p + rest1);
            lemma_suffix_shift(v, pos, sub_p, rest1);
            assert(lit_at(v, pos, sub_p));
            let p1 = pos + sub_p.len();
            assert(rest2[0] == ',');
            assert(!is_digit(','));
            lemma_iscan_dec(v, p1, domain_id, rest2);
            lemma_suffix_shift(v, p1, dec_i32(domain_id as int), rest2);
            let p2 = p1 + dec_i32(domain_id as int).len();
            lemma_lit_prefix(v, p2, ",\"value\":"@, rest3);
            let p3 = p2 + ",\"value\":"@.len();
            lemma_jstring_at(v, p3, value, "}}"@ + tail);
            lemma_suffix_shift(v, p3, jstr(value), "}}"@ + tail);
            let p4 = p3 + jstr(value).len();
            lemma_lit_prefix(v, p4, "}}"@, tail);
            assert(p4 + "}}"@.len() == pos + enc_object(o).len());
        },
        ObjectV::IpAddr { family, value } => {
            let rest3 = jstr(value) + ("}}"@ + tail);
            let rest2 = ",\"value\":"@ + rest3;
            let rest1 = jstr(family) + rest2;
            assert(v.subrange(pos, v.len() as int) =~= ip_p + rest1);
            lemma_suffix_shift(v, pos, ip_p, rest1);
            lemma_head_chars(v, pos, ip_p);
            assert(v[pos + 2] == ip_p[2]);
            if lit_at(v, pos, sub_p) {
                assert(v.subrange(pos, pos + sub_p.len())[2] == sub_p[2]);
                assert(v[pos + 2] == sub_p[2]);
                assert(false);
            }
            assert(lit_at(v, pos, ip_p));
            let p1 = pos + ip_p.len();
            lemma_jstring_at(v, p1, family, rest2);
            lemma_suffix_shift(v, p1, jstr(family), rest2);
            let p2 = p1 + jstr(family).len();
            lemma_lit_prefix(v, p2, ",\"value\":"@, rest3);
            let p3 = p2 + ",\"value\":"@.len();
            lemma_jstring_at(v, p3, value, "}}"@ + tail);
            lemma_suffix_shift(v, p3, jstr(value), "}}"@ + tail);
            let p4 = p3 + jstr(value).len();
            lemma_lit_prefix(v, p4, "}}"@, tail);
            assert(p4 + "}}"@.len() == pos + enc_object(o).len());
        },
        ObjectV::SubdomainIpAddr { subdomain_id, ip_addr_id } => {
            let rest3 = dec_i32(ip_addr_id as int) + ("}}"@ + tail);
            let rest2 = ",\"ip_addr_id\":"@ + rest3;
            let rest1 = dec_i32(subdomain_id as int) + rest2;
            assert(v.subrange(pos, v.len() as int) =~= link_p + rest1);
            lemma_suffix_shift(v, pos, link_p, rest1);
            lemma_head_chars(v, pos, link_p);
            assert(v[pos + 2] == link_p[2]);
            assert(v[pos + 11] == link_p[11]);
            if lit_at(v, pos, sub_p) {
                assert(v.subrange(pos, pos + sub_p.len())[11] == sub_p[11]);
                assert(v[pos + 11] == sub_p[11]);
                assert(false);
            }
            if lit_at(v, pos, ip_p) {
                assert(v.subrange(pos, pos + ip_p.len())[2] == ip_p[2]);
                assert(v[pos + 2] == ip_p[2]);
                assert(false);
            }
            assert(lit_at(v, pos, link_p));
            let p1 = pos + link_p.len();
            assert(rest2[0] == ',');
            assert(!is_digit(','));
            lemma_iscan_dec(v, p1, subdomain_id, rest2);
            lemma_suffix_shift(v, p1, dec_i32(subdomain_id as int), rest2);
            let p2 = p1 + dec_i32(subdomain_id as int).len();
            lemma_lit_prefix(v, p2, ",\"ip_addr_id\":"@, rest3);
            let p3 = p2 + ",\"ip_addr_id\":"@.len();
            assert(("}}"@ + tail)[0] == '}');
            assert(!is_digit('}'));
            lemma_iscan_dec(v, p3, ip_addr_id, "}}"@ + tail);
            lemma_suffix_shift(v, p3, dec_i32(ip_addr_id as int), "}}"@ + tail);
            let p4 = p3 + dec_i32(ip_addr_id as int).len();
            lemma_lit_prefix(v, p4, "}}"@, tail);
            assert(p4 + "}}"@.len() == pos + enc_object(o).len());
        },
    }
}

/// Every canonical event line decodes to its event.
pub proof fn lemma_event_complete(v: Seq<char>, e: EventV)
    requires
        v == enc_event(e),
    ensures
        spec_event(v) == Some(e),
{
    reveal_strlit("\"Done\"");
    reveal_strlit("{\"Error\":");
    reveal_strlit("{\"Info\":");
    reveal_strlit("{\"Log\":");
    reveal_strlit("{\"Object\":");
    reveal_strlit("}");
    let done_l = "\"Done\""@;
    let err_l = "{\"Error\":"@;
    let info_l = "{\"Info\":"@;
    let log_l = "{\"Log\":"@;
    let obj_l = "{\"Object\":"@;
    assert(v.subrange(0, v.len() as int) =~= v);
    match e {
        EventV::Done => {
            assert(v.subrange(0, v.len() as int) =~= done_l + Seq::<char>::empty());
            lemma_suffix_shift(v, 0, done_l, Seq::empty());
            assert(lit_at(v, 0, done_l));
        },
        EventV::Error(m) => {
            let rest1 = jstr(m) + "}"@;
            assert(v.subrange(0, v.len() as int) =~= err_l + rest1);
            lemma_suffix_shift(v, 0, err_l, rest1);
            lemma_head_chars(v, 0, err_l);
            assert(v[0int + 0] == err_l[0]);
            if lit_at(v, 0, done_l) {
                assert(v.subrange(0, done_l.len() as int)[0] == done_l[0]);
                assert(v[0] == done_l[0]);
                assert(false);
            }
            assert(lit_at(v, 0, err_l));
            lemma_jstring_at(v, err_l.len() as int, m, "}"@);
            lemma_suffix_shift(v, err_l.len() as int, jstr(m), "}"@);
            let p = err_l.len() + jstr(m).len();
            assert(v.subrange(p as int, v.len() as int) =~= "}"@ + Seq::<char>::empty());
            lemma_suffix_shift(v, p as int, "}"@, Seq::empty());
            assert(lit_at(v, p as int, "}"@));
            assert(p + "}"@.len() == v.len());
        },
        EventV::Info(m) => {
            let rest1 = jstr(m) + "}"@;
            assert(v.subrange(0, v.len() as int) =~= info_l + rest1);
            lemma_suffix_shift(v, 0, info_l, rest1);
            lemma_head_chars(v, 0, info_l);
            assert(v[0int + 0] == info_l[0]);
            assert(v[0int + 2] == info_l[2]);
            if lit_at(v, 0, done_l) {
                assert(v.subrange(0, done_l.len() as int)[0] == done_l[0]);
                assert(v[0] == done_l[0]);
                assert(false);
            }
            if lit_at(v, 0, err_l) {
                assert(v.subrange(0, err_l.len() as int)[2] == err_l[2]);
                assert(v[0int + 2] == err_l[2]);
                assert(false);
            }
            assert(lit_at(v, 0, info_l));
            lemma_jstring_at(v, info_l.len() as int, m, "}"@);
            lemma_suffix_shift(v, info_l.len() as int, jstr(m), "}"@);
            let p = info_l.len() + jstr(m).len();
            assert(v.subrange(p as int, v.len() as int) =~= "}"@ + Seq::<char>::empty());
            lemma_suffix_shift(v, p as int, "}"@, Seq::empty());
            assert(lit_at(v, p as int, "}"@));
            assert(p + "}"@.len() == v.len());
        },
        EventV::Log(m) => {
            let rest1 = jstr(m) + "}"@;
            assert(v.subrange(0, v.len() as int) =~= log_l + rest1);
            lemma_suffix_shift(v, 0, log_l, rest1);
            lemma_head_chars(v, 0, log_l);
            assert(v[0int + 0] == log_l[0]);
            assert(v[0int + 2] == log_l[2]);
            if lit_at(v, 0, done_l) {
                assert(v.subrange(0, done_l.len() as int)[0] == done_l[0]);
                assert(v[0] == done_l[0]);
                assert(false);
            }
            if lit_at(v, 0, err_l) {
                assert(v.subrange(0, err_l.len() as int)[2] == err_l[2]);
                assert(v[0int + 2] == err_l[2]);
                assert(false);
            }
            if lit_at(v, 0, info_l) {
                assert(v.subrange(0, info_l.len() as int)[2] == info_l[2]);
                assert(v[0int + 2] == info_l[2]);
                assert(false);
            }
            assert(lit_at(v, 0, log_l));
            lemma_jstring_at(v, log_l.len() as int, m, "}"@);
            lemma_suffix_shift(v, log_l.len() as int, jstr(m), "}"@);
            let p = log_l.len() + jstr(m).len();
            assert(v.subrange(p as int, v.len() as int) =~= "}"@ + Seq::<char>::empty());
            lemma_suffix_shift(v, p as int, "}"@, Seq::empty());
            assert(lit_at(v, p as int, "}"@));
            assert(p + "}"@.len() == v.len());
        },
        EventV::Object(o) => {
            let rest1 = enc_object(o) + "}"@;
            assert(v.subrange(0, v.len() as int) =~= obj_l + rest1);
            lemma_suffix_shift(v, 0, obj_l, rest1);
            lemma_head_chars(v, 0, obj_l);
            assert(v[0int + 0] == obj_l[0]);
            assert(v[0int + 2] == obj_l[2]);
            if lit_at(v, 0, done_l) {
                assert(v.subrange(0, done_l.len() as int)[0] == done_l[0]);
                assert(v[0] == done_l[0]);
                assert(false);
            }
            if lit_at(v, 0, err_l) {
                assert(v.subrange(0, err_l.len() as int)[2] == err_l[2]);
                assert(v[0int + 2] == err_l[2]);
                assert(false);
            }
            if lit_at(v, 0, info_l) {
                assert(v.subrange(0, info_l.len() as int)[2] == info_l[2]);
                assert(v[0int + 2] == info_l[2]);
                assert(false);
            }
            if lit_at(v, 0, log_l) {
                assert(v.subrange(0, log_l.len() as int)[2] == log_l[2]);
                assert(v[0int + 2] == log_l[2]);
                assert(false);
            }
            assert(lit_at(v, 0, obj_l));
            assert((enc_object(o) + "}"@) =~= enc_object(o) + "}"@);
            lemma_object_at(v, obj_l.len() as int, o, "}"@);
            lemma_suffix_shift(v, obj_l.len() as int, enc_object(o), "}"@);
            let p = obj_l.len() + enc_object(o).len();
            assert(v.subrange(p as int, v.len() as int) =~= "}"@ + Seq::<char>::empty());
            lemma_suffix_shift(v, p as int, "}"@, Seq::empty());
            assert(lit_at(v, p as int, "}"@));
            assert(p + "}"@.len() == v.len());
        },
    }
}

/// Every canonical reply line decodes to its reply.
pub proof fn lemma_reply_complete(v: Seq<char>, r: ReplyV)
    requires
        v == enc_reply(r),
    ensures
        spec_reply(v) == Some(r),
{
    reveal_strlit("{\"Ok\":");
    reveal_strlit("{\"Err\":");
    reveal_strlit("}");
    let ok_l = "{\"Ok\":"@;
    let err_l = "{\"Err\":"@;
    assert(v.subrange(0, v.len() as int) =~= v);
    match r {
        ReplyV::Id(n) => {
            let rest1 = dec_i32(n as int) + "}"@;
            assert(v.subrange(0, v.len() as int) =~= ok_l + rest1);
            lemma_suffix_shift(v, 0, ok_l, rest1);
            assert(lit_at(v, 0, ok_l));
            assert(("}"@)[0] == '}');
            assert(!is_digit('}'));
            lemma_iscan_dec(v, ok_l.len() as int, n, "}"@);
            lemma_suffix_shift(v, ok_l.len() as int, dec_i32(n as int), "}"@);
            let p = ok_l.len() + dec_i32(n as int).len();
            assert(v.subrange(p as int, v.len() as int) =~= "}"@ + Seq::<char>::empty());
            lemma_suffix_shift(v, p as int, "}"@, Seq::empty());
            assert(lit_at(v, p as int, "}"@));
            assert(p + "}"@.len() == v.len());
        },
        ReplyV::Failure(m) => {
            let rest1 = jstr(m) + "}"@;
            assert(v.subrange(0, v.len() as int) =~= err_l + rest1);
            lemma_suffix_shift(v, 0, err_l, rest1);
            lemma_head_chars(v, 0, err_l);
            assert(v[0int + 2] == err_l[2]);
            if lit_at(v, 0, ok_l) {
                assert(v.subrange(0, ok_l.len() as int)[2] == ok_l[2]);
                assert(v[0int + 2] == ok_l[2]);
                assert(false);
            }
            assert(lit_at(v, 0, err_l));
            lemma_jstring_at(v, err_l.len() as int, m, "}"@);
            lemma_suffix_shift(v, err_l.len() as int, jstr(m), "}"@);
            let p = err_l.len() + jstr(m).len();
            assert(v.subrange(p as int, v.len() as int) =~= "}"@ + Seq::<char>::empty());
            lemma_suffix_shift(v, p as int, "}"@, Seq::empty());
            assert(lit_at(v, p as int, "}"@));
            assert(p + "}"@.len() == v.len());
        },
    }
}

// --- the orchestrator's protocol loop ---------------------------------

/// What an event asks of the parent.
pub open spec fn is_terminal(e: EventV) -> bool {
    e is Done || e is Error
}

/// What the store answers for one finding, in words.
pub open spec fn store_error_text(e: StoreError) -> Seq<char> {
    match e {
        StoreError::Duplicate => "value already stored"@,
        StoreError::NotFound => "row not found"@,
        StoreError::ForeignKey => "reference to a missing row"@,
        StoreError::Full => "table cannot assign another id"@,
        StoreError::BadFilter => "filter not understood"@,
    }
}

/// The store's answer for one finding as a message string.
pub fn store_error_message(e: StoreError) -> (r: String)
    ensures
        r@ == store_error_text(e),
{
    match e {
        StoreError::Duplicate => String::from_str("value already stored"),
        StoreError::NotFound => String::from_str("row not found"),
        StoreError::ForeignKey => String::from_str("reference to a missing row"),
        StoreError::Full => String::from_str("table cannot assign another id"),
        StoreError::BadFilter => String::from_str("filter not understood"),
    }
}

/// What the orchestrator does with one event.
#[derive(Debug)]
pub enum StepAction {
    /// Send this reply to the child before reading the next event.
    Answer(Reply),
    /// Render this event; nothing is sent back.
    Forward(Event),
    /// The session is over.
    Finished,
}

/// The reply answers the insert's result: the identifier on success,
/// the store's message otherwise.
pub open spec fn action_matches_result(a: StepAction, res: Result<(bool, i32), StoreError>) -> bool {
    match (a, res) {
        (StepAction::Answer(Reply::Id(id)), Ok(outcome)) => id == outcome.1,
        (StepAction::Answer(Reply::Failure(m)), Err(e)) => m@ == store_error_text(e),
        _ => false,
    }
}

/// The parent-side driver of one module invocation. It answers every
/// finding with exactly one reply before the next event is read, and
/// the first `Done` or `Error` finishes the session; no event is
/// accepted after it.
pub struct Orchestrator {
    finished: bool,
    failure: Option<String>,
}

impl Orchestrator {
    pub closed spec fn is_finished(self) -> bool {
        self.finished
    }

    pub closed spec fn failure_v(self) -> Option<Seq<char>> {
        match self.failure {
            Some(m) => Some(m@),
            None => None,
        }
    }

    pub fn new() -> (r: Orchestrator)
        ensures
            !r.is_finished(),
            r.failure_v() is None,
    {
        Orchestrator { finished: false, failure: None }
    }

    pub fn finished(&self) -> (r: bool)
        ensures
            r == self.is_finished(),
    {
        self.finished
    }

    /// The failure message of a session that ended with `Error`.
    pub fn failure(&self) -> (r: &Option<String>)
        ensures
            match r {
                Some(m) => self.failure_v() == Some(m@),
                None => self.failure_v() is None,
            },
    {
        &self.failure
    }

    /// Handles one event: a finding is inserted and answered, a log line
    /// is forwarded, and a terminal event finishes the session.
    #[verifier::rlimit(60)]
    pub fn step(&mut self, db: &mut Database, ev: Event) -> (r: StepAction)
        requires
            !old(self).is_finished(),
            old(self).failure_v() is None,
            old(db).wf(),
        ensures
            final(db).wf(),
            final(self).is_finished() == is_terminal(ev@),
            match ev@ {
                EventV::Done => final(self).failure_v() is None && r is Finished && *final(db)
                    == *old(db),
                EventV::Error(m) => final(self).failure_v() == Some(m) && r is Finished
                    && *final(db) == *old(db),
                EventV::Info(m) => (r matches StepAction::Forward(f) && f@ == ev@) && *final(db)
                    == *old(db) && final(self).failure_v() == old(self).failure_v(),
                EventV::Log(m) => (r matches StepAction::Forward(f) && f@ == ev@) && *final(db)
                    == *old(db) && final(self).failure_v() == old(self).failure_v(),
                EventV::Object(o) => final(self).failure_v() == old(self).failure_v() && (
                match o {
                    ObjectV::Subdomain { domain_id, value } => exists|
                        res: Result<(bool, i32), StoreError>,
                    |
                        #[trigger] subdomain_insert_post(*old(db), *final(db), domain_id, value, res)
                            && action_matches_result(r, res),
                    ObjectV::IpAddr { family, value } => exists|
                        res: Result<(bool, i32), StoreError>,
                    |
                        #[trigger] ipaddr_insert_post(*old(db), *final(db), family, value, res)
                            && action_matches_result(r, res),
                    ObjectV::SubdomainIpAddr { subdomain_id, ip_addr_id } => exists|
                        res: Result<(bool, i32), StoreError>,
                    |
                        #[trigger] link_insert_post(*old(db), *final(db), subdomain_id, ip_addr_id, res)
                            && action_matches_result(r, res),
                }),
            },
    {
        match ev {
            Event::Done => {
                self.finished = true;
                StepAction::Finished
            },
            Event::Error(m) => {
                self.finished = true;
                self.failure = Some(m);
                StepAction::Finished
            },
            Event::Object(o) => {
                let ghost pre_db = *db;
                let res = db.insert_generic(&o);
                let action = match res {
                    Ok((_, id)) => StepAction::Answer(Reply::Id(id)),
                    Err(e) => StepAction::Answer(Reply::Failure(store_error_message(e))),
                };
                proof {
                    assert(action_matches_result(action, res));
                    match o@ {
                        ObjectV::Subdomain { domain_id, value } => {
                            assert(subdomain_insert_post(pre_db, *db, domain_id, value, res));
                        },
                        ObjectV::IpAddr { family, value } => {
                            assert(ipaddr_insert_post(pre_db, *db, family, value, res));
                        },
                        ObjectV::SubdomainIpAddr { subdomain_id, ip_addr_id } => {
                            assert(link_insert_post(pre_db, *db, subdomain_id, ip_addr_id, res));
                        },
                    }
                }
                action
            },
            other => StepAction::Forward(other),
        }
    }
}

/// How many findings stand before the first terminal event: the number
/// of replies a complete session issues.
pub open spec fn session_reply_count(events: Seq<EventV>) -> int
    decreases events.len(),
{
    if events.len() == 0 {
        0
    } else if is_terminal(events[0]) {
        0
    } else {
        (if events[0] is Object {
            1int
        } else {
            0int
        }) + session_reply_count(events.drop_first())
    }
}

/// How many events a session consumes: everything up to and including
/// the first terminal event.
pub open spec fn session_consumed(events: Seq<EventV>) -> int
    decreases events.len(),
{
    if events.len() == 0 {
        0
    } else if is_terminal(events[0]) {
        1
    } else {
        1 + session_consumed(events.drop_first())
    }
}

/// Protocol linearity: a session consumes a prefix of the child's trace
/// in which the single terminal event stands last — every event before
/// it is non-terminal — and it answers exactly the `Object` events of
/// that prefix, one reply each.
pub proof fn lemma_protocol_linearity(events: Seq<EventV>)
    ensures
        0 <= session_consumed(events) <= events.len(),
        forall|k: int|
            0 <= k < session_consumed(events) - 1 ==> !is_terminal(#[trigger] events[k]),
        session_consumed(events) > 0 && is_terminal(events[session_consumed(events) - 1])
            ==> forall|k: int|
            0 <= k < session_consumed(events) - 1 ==> !is_terminal(#[trigger] events[k]),
        (exists|k: int| 0 <= k < events.len() && is_terminal(#[trigger] events[k]))
            <==> session_consumed(events) > 0 && is_terminal(events[session_consumed(events) - 1]),
        0 <= session_reply_count(events) <= session_consumed(events),
    decreases events.len(),
{
    if events.len() == 0 {
    } else if is_terminal(events[0]) {
    } else {
        lemma_protocol_linearity(events.drop_first());
        assert(forall|k: int|
            1 <= k < events.len() ==> events[k] == events.drop_first()[k - 1]);
        if exists|k: int| 0 <= k < events.len() && is_terminal(#[trigger] events[k]) {
            let k = choose|k: int| 0 <= k < events.len() && is_terminal(#[trigger] events[k]);
            assert(is_terminal(events.drop_first()[k - 1]));
        }
    }
}

/// The events' views.
pub open spec fn event_views(events: Seq<Event>) -> Seq<EventV> {
    events.map_values(|e: Event| e@)
}

/// Drives one session over a trace of already-received events: each
/// finding is inserted and answered in order, and the loop stops at the
/// first terminal event. The result carries the replies, in issue
/// order, and the failure message when the child reported one.
pub fn run_session(db: &mut Database, events: Vec<Event>) -> (r: (Vec<Reply>, Option<String>))
    requires
        old(db).wf(),
    ensures
        final(db).wf(),
        r.0@.len() == session_reply_count(event_views(events@)),
        match r.1 {
            Some(m) => session_consumed(event_views(events@)) > 0 && event_views(events@)[
                session_consumed(event_views(events@)) - 1] == EventV::Error(m@),
            None => !(session_consumed(event_views(events@)) > 0 && event_views(events@)[
                session_consumed(event_views(events@)) - 1] is Error),
        },
{
    let ghost evs = event_views(events@);
    let mut orch = Orchestrator::new();
    let mut replies: Vec<Reply> = Vec::new();
    let n = events.len();
    let mut i: usize = 0;
    proof {
        assert(evs.subrange(0, evs.len() as int) =~= evs);
    }
    while i < n
        invariant
            n == events@.len(),
            evs == event_views(events@),
            i <= n,
            db.wf(),
            !orch.is_finished(),
            orch.failure_v() is None,
            session_reply_count(evs) == replies@.len() + session_reply_count(
                evs.subrange(i as int, evs.len() as int),
            ),
            session_consumed(evs) == i + session_consumed(
                evs.subrange(i as int, evs.len() as int),
            ),
            forall|k: int| 0 <= k < i ==> !is_terminal(#[trigger] evs[k]),
        decreases n - i,
    {
        let ghost rest = evs.subrange(i as int, evs.len() as int);
        proof {
            assert(rest[0] == evs[i as int]);
            assert(rest.drop_first() =~= evs.subrange(i + 1int, evs.len() as int));
        }
        let ev = duplicate_event(&events[i]);
        let action = orch.step(db, ev);
        match action {
            StepAction::Answer(rep) => {
                replies.push(rep);
            },
            StepAction::Forward(_) => {},
            StepAction::Finished => {
                let f = orch.into_failure();
                return (replies, f);
            },
        }
        i = i + 1;
    }
    proof {
        assert(evs.subrange(i as int, evs.len() as int) =~= Seq::<EventV>::empty());
    }
    (replies, None)
}

impl Orchestrator {
    /// Surrenders the failure message of a finished session.
    pub fn into_failure(self) -> (r: Option<String>)
        ensures
            match r {
                Some(m) => self.failure_v() == Some(m@),
                None => self.failure_v() is None,
            },
    {
        self.failure
    }
}

/// An equal copy of a finding.
pub fn duplicate_object(o: &Object) -> (r: Object)
    ensures
        r@ == o@,
{
    match o {
        Object::Subdomain { domain_id, value } => Object::Subdomain {
            domain_id: *domain_id,
            value: value.clone(),
        },
        Object::IpAddr { family, value } => Object::IpAddr {
            family: family.clone(),
            value: value.clone(),
        },
        Object::SubdomainIpAddr { subdomain_id, ip_addr_id } => Object::SubdomainIpAddr {
            subdomain_id: *subdomain_id,
            ip_addr_id: *ip_addr_id,
        },
    }
}

/// An equal copy of an event.
pub fn duplicate_event(e: &Event) -> (r: Event)
    ensures
        r@ == e@,
{
    match e {
        Event::Object(o) => Event::Object(duplicate_object(o)),
        Event::Info(m) => Event::Info(m.clone()),
        Event::Log(m) => Event::Log(m.clone()),
        Event::Error(m) => Event::Error(m.clone()),
        Event::Done => Event::Done,
    }
}

// --- the child side ----------------------------------------------------

/// The single-slot container that latches the first error a script
/// binding meets, so that a script that swallows its error still yields
/// a failed result.
pub struct ErrorLatch {
    err: Option<String>,
}

impl ErrorLatch {
    pub closed spec fn latched(self) -> Option<Seq<char>> {
        match self.err {
            Some(m) => Some(m@),
            None => None,
        }
    }

    pub fn new() -> (r: ErrorLatch)
        ensures
            r.latched() is None,
    {
        ErrorLatch { err: None }
    }

    /// Latches the first error; later ones are dropped.
    pub fn set_error(&mut self, message: String)
        ensures
            old(self).latched() is None ==> final(self).latched() == Some(message@),
            old(self).latched() is Some ==> final(self).latched() == old(self).latched(),
    {
        if self.err.is_none() {
            self.err = Some(message);
        }
    }

    pub fn is_set(&self) -> (r: bool)
        ensures
            r == (self.latched() is Some),
    {
        self.err.is_some()
    }
}

/// The terminal event a finished script run sends: a failed run reports
/// its error, and a run whose bindings latched an error is upgraded from
/// `Done` to `Error` — `Done` is never sent when anything failed.
pub fn worker_terminal_event(latch: ErrorLatch, result: Result<(), String>) -> (ev: Event)
    ensures
        match result {
            Err(m) => ev@ == EventV::Error(m@),
            Ok(()) => match latch.latched() {
                Some(m) => ev@ == EventV::Error(m),
                None => ev@ == EventV::Done,
            },
        },
        (latch.latched() is Some || result is Err) ==> !(ev@ is Done),
{
    match result {
        Err(m) => Event::Error(m),
        Ok(()) => match latch.err {
            Some(m) => Event::Error(m),
            None => Event::Done,
        },
    }
}

} // verus!

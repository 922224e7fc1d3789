//! System proxy settings: the commands that point the desktop's proxy at the
//! daemon and put the user's own settings back, and the text formats in which
//! those settings are kept in between (one `key=value` per line).
use vstd::prelude::*;
use vstd::string::StringExecFns;
use crate::text::{
    lemma_trim_start_skips, lemma_trim_start_stops, lemma_trim_end_skips, lemma_trim_end_stops,
    lemma_index_of_whitespace_join,
    lemma_lines_have_no_newline, lemma_trim_keeps_out, is_whitespace, chars_of, find_char, find_whitespace, index_of_whitespace, lemma_lines_append_line,
    lemma_split_first_join, line_spans, lines, range_is, rfind_char, split_first, split_last,
    starts_with, str_eq, string_of, strip_cr, trim, trim_at, trim_matches, trim_start, trim_start_at, Trim,
};

verus! {

/// One run of the settings tool: its arguments, and whether a failure stops
/// the whole change (otherwise it is ignored).
#[derive(Debug)]
pub struct Command {
    pub args: Vec<String>,
    pub must_succeed: bool,
}

impl DeepView for Command {
    type V = (Seq<Seq<char>>, bool);

    open spec fn deep_view(&self) -> (Seq<Seq<char>>, bool) {
        (self.args.deep_view(), self.must_succeed)
    }
}

/// A command whose failure stops the change.
pub open spec fn run(args: Seq<Seq<char>>) -> (Seq<Seq<char>>, bool) {
    (args, true)
}

fn command(args: Vec<String>, must_succeed: bool) -> (c: Command)
    ensures
        c.args == args,
        c.must_succeed == must_succeed,
{
    Command { args, must_succeed }
}

fn text(s: &str) -> (r: String)
    ensures
        r@ == s@,
{
    s.to_owned()
}

/// The host and port of a listen address: split at the last `:`, or the whole
/// address with port `1080` when it has none.
pub open spec fn host_port(addr: Seq<char>) -> (Seq<char>, Seq<char>) {
    match split_last(addr, ':') {
        Some(hp) => hp,
        None => (addr, "1080"@),
    }
}

/// Splits a listen address into host and port; see `host_port`.
pub fn split_host_port(addr: &str) -> (r: (String, String))
    ensures
        (r.0@, r.1@) == host_port(addr@),
{
    let v = chars_of(addr);
    let n = v.len();
    assert(v@.subrange(0, n as int) =~= v@);
    match rfind_char(&v, 0, n, ':') {
        Some(i) => {
            assert(v@.subrange(0, i as int) =~= v@.take(i as int));
            assert(v@.subrange(i + 1, n as int) =~= v@.skip(i + 1));
            (string_of(addr, &v, 0, i), string_of(addr, &v, i + 1, n))
        },
        None => (text(addr), text("1080")),
    }
}

/// The value of the last line of the form `key=value` (split at its first
/// `=`) whose key is `key`.
pub open spec fn last_value(ls: Seq<Seq<char>>, key: Seq<char>) -> Option<Seq<char>>
    decreases ls.len(),
{
    if ls.len() == 0 {
        None
    } else {
        match split_first(ls.last(), '=') {
            Some(kv) => if kv.0 == key {
                Some(kv.1)
            } else {
                last_value(ls.drop_last(), key)
            },
            None => last_value(ls.drop_last(), key),
        }
    }
}

pub open spec fn value_or(v: Option<Seq<char>>, d: Seq<char>) -> Seq<char> {
    match v {
        Some(x) => x,
        None => d,
    }
}

/// The span of `v` holding the value of the last `key=value` line for `key`.
fn last_value_span(v: &Vec<char>, spans: &Vec<(usize, usize)>, key: &Vec<char>) -> (r: Option<
    (usize, usize),
>)
    requires
        spans@.len() == lines(v@).len(),
        forall|k: int| 0 <= k < spans@.len() ==> #[trigger] spans@[k].0 <= spans@[k].1 <= v@.len(),
        forall|k: int|
            0 <= k < spans@.len() ==> v@.subrange(spans@[k].0 as int, spans@[k].1 as int)
                == #[trigger] lines(v@)[k],
    ensures
        match r {
            None => last_value(lines(v@), key@) is None,
            Some(ab) => ab.0 <= ab.1 <= v@.len() && last_value(lines(v@), key@) == Some(
                v@.subrange(ab.0 as int, ab.1 as int),
            ),
        },
{
    let ghost ls = lines(v@);
    let n = spans.len();
    let mut r: Option<(usize, usize)> = None;
    let mut k: usize = 0;
    assert(ls.take(0) =~= Seq::<Seq<char>>::empty());
    while k < n
        invariant
            n == spans@.len() == ls.len(),
            ls == lines(v@),
            k <= n,
            forall|j: int| 0 <= j < spans@.len() ==> #[trigger] spans@[j].0 <= spans@[j].1 <= v@.len(),
            forall|j: int|
                0 <= j < spans@.len() ==> v@.subrange(spans@[j].0 as int, spans@[j].1 as int)
                    == #[trigger] ls[j],
            match r {
                None => last_value(ls.take(k as int), key@) is None,
                Some(ab) => ab.0 <= ab.1 <= v@.len() && last_value(ls.take(k as int), key@) == Some(
                    v@.subrange(ab.0 as int, ab.1 as int),
                ),
            },
        decreases n - k,
    {
        let (lo, hi) = spans[k];
        let ghost line = ls[k as int];
        assert(v@.subrange(lo as int, hi as int) == line);
        assert(ls.take(k + 1).drop_last() =~= ls.take(k as int));
        assert(ls.take(k + 1).last() == line);
        match find_char(v, lo, hi, '=') {
            Some(eq) => {
                assert(line.take(eq - lo) =~= v@.subrange(lo as int, eq as int));
                assert(line.skip(eq - lo + 1) =~= v@.subrange(eq + 1, hi as int));
                if range_is(v, lo, eq, key) {
                    r = Some((eq + 1, hi));
                }
            },
            None => {},
        }
        k = k + 1;
    }
    assert(ls.take(n as int) =~= ls);
    r
}

// ---------------------------------------------------------------- Linux (GNOME)

/// The backup of the GNOME proxy settings: proxy mode, SOCKS host and port.
pub open spec fn linux_backup_text(mode: Seq<char>, host: Seq<char>, port: Seq<char>) -> Seq<
    char,
> {
    "mode="@ + mode + "\n"@ + "host="@ + host + "\n"@ + "port="@ + port + "\n"@
}

/// Writes the backup of the GNOME proxy settings.
pub fn linux_backup(mode: &str, host: &str, port: &str) -> (b: String)
    ensures
        b@ == linux_backup_text(mode@, host@, port@),
{
    let mut b = String::new();
    b.append("mode=");
    b.append(mode);
    b.append("\n");
    b.append("host=");
    b.append(host);
    b.append("\n");
    b.append("port=");
    b.append(port);
    b.append("\n");
    assert(b@ =~= linux_backup_text(mode@, host@, port@));
    b
}

/// A `gsettings get` answer as a plain value: trimmed, then without the
/// quotes around it.
pub fn gsettings_value(raw: &str) -> (r: String)
    ensures
        r@ == trim_matches(trim(raw@), '\''),
{
    let v = chars_of(raw);
    let (a, b) = trim_at(&v, 0, v.len(), &Trim::Whitespace);
    assert(v@.subrange(0, v@.len() as int) =~= v@);
    let (c, d) = trim_at(&v, a, b, &Trim::Char('\''));
    string_of(raw, &v, c, d)
}

/// The GNOME proxy settings read back from a backup.
#[derive(Debug)]
pub struct LinuxProxy {
    pub mode: String,
    pub host: String,
    pub port: String,
}

/// What a backup gives back: the last `mode`, `host` and `port` lines; a
/// missing mode reads as `none`, a missing host or port as empty.
pub open spec fn linux_restored(backup: Seq<char>) -> (Seq<char>, Seq<char>, Seq<char>) {
    (
        value_or(last_value(lines(backup), "mode"@), "none"@),
        value_or(last_value(lines(backup), "host"@), Seq::empty()),
        value_or(last_value(lines(backup), "port"@), Seq::empty()),
    )
}

fn value_string(s: &str, v: &Vec<char>, span: Option<(usize, usize)>, default: &str) -> (r: String)
    requires
        v@ == s@,
        span matches Some(ab) ==> ab.0 <= ab.1 <= v@.len(),
    ensures
        r@ == match span {
            Some(ab) => s@.subrange(ab.0 as int, ab.1 as int),
            None => default@,
        },
{
    match span {
        Some((a, b)) => string_of(s, v, a, b),
        None => text(default),
    }
}

/// Reads the GNOME proxy settings back from a backup; see `linux_restored`.
pub fn linux_restore(backup: &str) -> (r: LinuxProxy)
    ensures
        (r.mode@, r.host@, r.port@) == linux_restored(backup@),
{
    let v = chars_of(backup);
    let spans = line_spans(&v);
    let k_mode = chars_of("mode");
    let k_host = chars_of("host");
    let k_port = chars_of("port");
    let mode = last_value_span(&v, &spans, &k_mode);
    let host = last_value_span(&v, &spans, &k_host);
    let port = last_value_span(&v, &spans, &k_port);
    let r = LinuxProxy {
        mode: value_string(backup, &v, mode, "none"),
        host: value_string(backup, &v, host, ""),
        port: value_string(backup, &v, port, ""),
    };
    assert(r.host@ == value_or(last_value(lines(backup@), "host"@), Seq::empty())) by {
        if host is None {
            assert(""@ =~= Seq::<char>::empty()) by {
                reveal_strlit("");
            }
        }
    }
    assert(r.port@ == value_or(last_value(lines(backup@), "port"@), Seq::empty())) by {
        if port is None {
            assert(""@ =~= Seq::<char>::empty()) by {
                reveal_strlit("");
            }
        }
    }
    r
}

/// A value that one line of a backup holds unchanged: no line break in it,
/// and no carriage return at its end.
pub open spec fn line_safe(v: Seq<char>) -> bool {
    !v.contains('\n') && (v.len() == 0 || v.last() != '\r')
}

/// `key=value` read back from its line: the key has no `=` and the value is line-safe.
pub proof fn lemma_key_value_line(key: Seq<char>, value: Seq<char>)
    requires
        !key.contains('='),
        !key.contains('\n'),
        line_safe(value),
    ensures
        split_first(key + seq!['='] + value, '=') == Some((key, value)),
        !(key + seq!['='] + value).contains('\n'),
        strip_cr(key + seq!['='] + value) == key + seq!['='] + value,
{
    lemma_split_first_join(key, '=', value);
    let l = key + seq!['='] + value;
    assert forall|i: int| 0 <= i < l.len() implies l[i] != '\n' by {
        if i < key.len() {
            assert(l[i] == key[i]);
        } else if i > key.len() {
            assert(l[i] == value[i - key.len() - 1]);
        }
    }
    if value.len() > 0 {
        assert(l.last() == value.last());
    }
}

/// Putting the GNOME proxy settings back from their backup gives the very
/// settings that were backed up, for values that a line holds unchanged.
pub proof fn law_linux_backup_restores(mode: Seq<char>, host: Seq<char>, port: Seq<char>)
    requires
        line_safe(mode),
        line_safe(host),
        line_safe(port),
    ensures
        linux_restored(linux_backup_text(mode, host, port)) == (mode, host, port),
        linux_disable_plan(Some(linux_backup_text(mode, host, port))) == (if host.len() > 0 {
            seq![
                gset("org.gnome.system.proxy.socks"@, "host"@, host),
                gset("org.gnome.system.proxy.socks"@, "port"@, port),
            ]
        } else {
            Seq::empty()
        }) + seq![gset("org.gnome.system.proxy"@, "mode"@, mode)],
{
    reveal_strlit("mode=");
    reveal_strlit("host=");
    reveal_strlit("port=");
    reveal_strlit("mode");
    reveal_strlit("host");
    reveal_strlit("port");
    reveal_strlit("\n");
    let km = "mode"@;
    let kh = "host"@;
    let kp = "port"@;
    assert(km =~= seq!['m', 'o', 'd', 'e']);
    assert(kh =~= seq!['h', 'o', 's', 't']);
    assert(kp =~= seq!['p', 'o', 'r', 't']);
    assert(!km.contains('=') && !km.contains('\n'));
    assert(!kh.contains('=') && !kh.contains('\n'));
    assert(!kp.contains('=') && !kp.contains('\n'));
    lemma_key_value_line(km, mode);
    lemma_key_value_line(kh, host);
    lemma_key_value_line(kp, port);
    let l1 = km + seq!['='] + mode;
    let l2 = kh + seq!['='] + host;
    let l3 = kp + seq!['='] + port;
    let t0 = Seq::<char>::empty();
    let t1 = t0 + l1 + seq!['\n'];
    let t2 = t1 + l2 + seq!['\n'];
    let t3 = t2 + l3 + seq!['\n'];
    assert("mode="@ =~= km + seq!['=']);
    assert("host="@ =~= kh + seq!['=']);
    assert("port="@ =~= kp + seq!['=']);
    assert("\n"@ =~= seq!['\n']);
    assert(linux_backup_text(mode, host, port) =~= t3);
    lemma_lines_append_line(t0, l1);
    lemma_lines_append_line(t1, l2);
    lemma_lines_append_line(t2, l3);
    assert(lines(t0) =~= Seq::<Seq<char>>::empty());
    let ls = lines(t3);
    assert(ls =~= seq![l1, l2, l3]);
    assert(ls.drop_last() =~= seq![l1, l2]);
    assert(ls.drop_last().drop_last() =~= seq![l1]);
    assert(ls.drop_last().drop_last().drop_last() =~= Seq::<Seq<char>>::empty());
    assert(km != kp && km != kh && kh != kp) by {
        assert(km[0] != kp[0]);
        assert(km[0] != kh[0]);
        assert(kh[0] != kp[0]);
    }
    let d1 = ls.drop_last();
    let d2 = d1.drop_last();
    assert(d2.last() == l1 && d1.last() == l2 && ls.last() == l3);
    assert(last_value(d2, km) == Some(mode));
    assert(last_value(d1, km) == Some(mode));
    assert(last_value(ls, km) == Some(mode));
    assert(last_value(d1, kh) == Some(host));
    assert(last_value(ls, kh) == Some(host));
    assert(last_value(ls, kp) == Some(port));
}

/// `gsettings set <schema> <key> <value>`.
pub open spec fn gset(schema: Seq<char>, key: Seq<char>, value: Seq<char>) -> (
    Seq<Seq<char>>,
    bool,
) {
    run(seq!["set"@, schema, key, value])
}

fn gset_command(schema: &str, key: &str, value: String) -> (c: Command)
    ensures
        c.deep_view() == gset(schema@, key@, value@),
{
    let args = vec![text("set"), text(schema), text(key), value];
    let c = command(args, true);
    assert(c.args.deep_view() =~= seq!["set"@, schema@, key@, value@]);
    c
}

/// Pointing GNOME's SOCKS proxy at `addr`: host, port, then manual mode.
pub open spec fn linux_enable_plan(addr: Seq<char>) -> Seq<(Seq<Seq<char>>, bool)> {
    seq![
        gset("org.gnome.system.proxy.socks"@, "host"@, host_port(addr).0),
        gset("org.gnome.system.proxy.socks"@, "port"@, host_port(addr).1),
        gset("org.gnome.system.proxy"@, "mode"@, "manual"@),
    ]
}

/// The commands that point GNOME's SOCKS proxy at `addr`.
pub fn linux_enable_commands(addr: &str) -> (c: Vec<Command>)
    ensures
        c.deep_view() == linux_enable_plan(addr@),
{
    let (host, port) = split_host_port(addr);
    let c = vec![
        gset_command("org.gnome.system.proxy.socks", "host", host),
        gset_command("org.gnome.system.proxy.socks", "port", port),
        gset_command("org.gnome.system.proxy", "mode", text("manual")),
    ];
    assert(c.deep_view() =~= linux_enable_plan(addr@));
    c
}

/// Turning GNOME's proxy off: with a backup, its host and port (when the
/// host is not empty) and then its mode; without one, mode `none`.
pub open spec fn linux_disable_plan(backup: Option<Seq<char>>) -> Seq<(Seq<Seq<char>>, bool)> {
    match backup {
        Some(b) => {
            let (mode, host, port) = linux_restored(b);
            (if host.len() > 0 {
                seq![
                    gset("org.gnome.system.proxy.socks"@, "host"@, host),
                    gset("org.gnome.system.proxy.socks"@, "port"@, port),
                ]
            } else {
                Seq::empty()
            }) + seq![gset("org.gnome.system.proxy"@, "mode"@, mode)]
        },
        None => seq![gset("org.gnome.system.proxy"@, "mode"@, "none"@)],
    }
}

/// The commands that turn GNOME's proxy off; see `linux_disable_plan`.
pub fn linux_disable_commands(backup: Option<&str>) -> (c: Vec<Command>)
    ensures
        c.deep_view() == linux_disable_plan(
            match backup {
                Some(b) => Some(b@),
                None => None,
            },
        ),
{
    match backup {
        Some(b) => {
            let r = linux_restore(b);
            let mut c: Vec<Command> = Vec::new();
            if !r.host.as_str().is_empty() {
                c.push(gset_command("org.gnome.system.proxy.socks", "host", r.host));
                c.push(gset_command("org.gnome.system.proxy.socks", "port", r.port));
            }
            c.push(gset_command("org.gnome.system.proxy", "mode", r.mode));
            assert(c.deep_view() =~= linux_disable_plan(Some(b@)));
            c
        },
        None => {
            let c = vec![gset_command("org.gnome.system.proxy", "mode", text("none"))];
            assert(c.deep_view() =~= linux_disable_plan(None));
            c
        },
    }
}


// ---------------------------------------------------------------- macOS

/// The backup key for a `networksetup` field: `Enabled`, `Server` and `Port`
/// are kept (lower-cased), other fields are not.
pub open spec fn mac_key(field: Seq<char>) -> Option<Seq<char>> {
    if field == "Enabled"@ {
        Some("enabled"@)
    } else if field == "Server"@ {
        Some("server"@)
    } else if field == "Port"@ {
        Some("port"@)
    } else {
        None
    }
}

/// The backup line for one line of `networksetup -getsocksfirewallproxy`
/// output (`Field: value`), or nothing.
pub open spec fn mac_entry(line: Seq<char>) -> Seq<char> {
    match split_first(line, ':') {
        Some(kv) => match mac_key(trim(kv.0)) {
            Some(k) => k + "="@ + trim(kv.1) + "\n"@,
            None => Seq::empty(),
        },
        None => Seq::empty(),
    }
}

/// The backup of the macOS SOCKS proxy settings, from the lines of their listing.
pub open spec fn mac_backup_text(ls: Seq<Seq<char>>) -> Seq<char>
    decreases ls.len(),
{
    if ls.len() == 0 {
        Seq::empty()
    } else {
        mac_backup_text(ls.drop_last()) + mac_entry(ls.last())
    }
}

fn field_is(v: &Vec<char>, lo: usize, hi: usize, name: &str) -> (b: bool)
    requires
        lo <= hi <= v@.len(),
    ensures
        b == (v@.subrange(lo as int, hi as int) == name@),
{
    let t = chars_of(name);
    range_is(v, lo, hi, &t)
}

/// Writes the backup of the macOS SOCKS proxy settings from the output of
/// `networksetup -getsocksfirewallproxy`.
pub fn mac_backup(info: &str) -> (b: String)
    ensures
        b@ == mac_backup_text(lines(info@)),
{
    let v = chars_of(info);
    let spans = line_spans(&v);
    let ghost ls = lines(v@);
    let n = spans.len();
    let mut b = String::new();
    let mut k: usize = 0;
    assert(ls.take(0) =~= Seq::<Seq<char>>::empty());
    while k < n
        invariant
            n == spans@.len() == ls.len(),
            ls == lines(v@),
            v@ == info@,
            k <= n,
            forall|j: int| 0 <= j < spans@.len() ==> #[trigger] spans@[j].0 <= spans@[j].1 <= v@.len(),
            forall|j: int|
                0 <= j < spans@.len() ==> v@.subrange(spans@[j].0 as int, spans@[j].1 as int)
                    == #[trigger] ls[j],
            b@ == mac_backup_text(ls.take(k as int)),
        decreases n - k,
    {
        let (lo, hi) = spans[k];
        let ghost line = ls[k as int];
        assert(v@.subrange(lo as int, hi as int) == line);
        assert(ls.take(k + 1).drop_last() =~= ls.take(k as int));
        assert(ls.take(k + 1).last() == line);
        let ghost before = b@;
        match find_char(&v, lo, hi, ':') {
            Some(c) => {
                assert(line.take(c - lo) =~= v@.subrange(lo as int, c as int));
                assert(line.skip(c - lo + 1) =~= v@.subrange(c + 1, hi as int));
                let (klo, khi) = trim_at(&v, lo, c, &Trim::Whitespace);
                let key = if field_is(&v, klo, khi, "Enabled") {
                    Some("enabled=")
                } else if field_is(&v, klo, khi, "Server") {
                    Some("server=")
                } else if field_is(&v, klo, khi, "Port") {
                    Some("port=")
                } else {
                    None
                };
                match key {
                    Some(kt) => {
                        let (vlo, vhi) = trim_at(&v, c + 1, hi, &Trim::Whitespace);
                        let value = string_of(info, &v, vlo, vhi);
                        b.append(kt);
                        b.append(value.as_str());
                        b.append("\n");
                        proof {
                            reveal_strlit("enabled=");
                            reveal_strlit("server=");
                            reveal_strlit("port=");
                            reveal_strlit("enabled");
                            reveal_strlit("server");
                            reveal_strlit("port");
                            reveal_strlit("=");
                            assert("enabled="@ =~= "enabled"@ + "="@);
                            assert("server="@ =~= "server"@ + "="@);
                            assert("port="@ =~= "port"@ + "="@);
                            assert(b@ =~= before + mac_entry(line));
                        }
                    },
                    None => {
                        assert(mac_entry(line) =~= Seq::<char>::empty());
                        assert(b@ =~= before + mac_entry(line));
                    },
                }
            },
            None => {
                assert(mac_entry(line) =~= Seq::<char>::empty());
                assert(b@ =~= before + mac_entry(line));
            },
        }
        k = k + 1;
    }
    assert(ls.take(n as int) =~= ls);
    b
}

/// The trimmed value of the last `Field: value` line of a listing whose
/// trimmed field is `field`.
pub open spec fn mac_field_value(ls: Seq<Seq<char>>, field: Seq<char>) -> Option<Seq<char>>
    decreases ls.len(),
{
    if ls.len() == 0 {
        None
    } else {
        match split_first(ls.last(), ':') {
            Some(kv) => if trim(kv.0) == field {
                Some(trim(kv.1))
            } else {
                mac_field_value(ls.drop_last(), field)
            },
            None => mac_field_value(ls.drop_last(), field),
        }
    }
}

/// The lines of the macOS backup, one per kept field of the listing.
pub open spec fn mac_backup_lines(ls: Seq<Seq<char>>) -> Seq<Seq<char>>
    decreases ls.len(),
{
    if ls.len() == 0 {
        Seq::empty()
    } else {
        mac_backup_lines(ls.drop_last()) + match split_first(ls.last(), ':') {
            Some(kv) => match mac_key(trim(kv.0)) {
                Some(k) => seq![k + seq!['='] + trim(kv.1)],
                None => Seq::empty(),
            },
            None => Seq::empty(),
        }
    }
}

proof fn lemma_mac_keys()
    ensures
        "enabled"@ == seq!['e', 'n', 'a', 'b', 'l', 'e', 'd'],
        "server"@ == seq!['s', 'e', 'r', 'v', 'e', 'r'],
        "port"@ == seq!['p', 'o', 'r', 't'],
        "="@ == seq!['='],
        "\n"@ == seq!['\n'],
        forall|x: Seq<char>|
            (#[trigger] mac_key(x)) is Some ==> !mac_key(x).unwrap().contains('=')
                && !mac_key(x).unwrap().contains('\n'),
        "enabled"@ != "server"@ && "enabled"@ != "port"@ && "server"@ != "port"@,
{
    reveal_strlit("enabled");
    reveal_strlit("server");
    reveal_strlit("port");
    reveal_strlit("=");
    reveal_strlit("\n");
    assert("enabled"@ =~= seq!['e', 'n', 'a', 'b', 'l', 'e', 'd']);
    assert("server"@ =~= seq!['s', 'e', 'r', 'v', 'e', 'r']);
    assert("port"@ =~= seq!['p', 'o', 'r', 't']);
    assert("="@ =~= seq!['=']);
    assert("\n"@ =~= seq!['\n']);
    assert("enabled"@[0] != "server"@[0] && "enabled"@[0] != "port"@[0] && "server"@[0] != "port"@[0]);
}

/// The macOS backup is made of whole lines, and its lines are the kept fields.
proof fn lemma_mac_backup_lines(ls: Seq<Seq<char>>)
    requires
        forall|k: int| 0 <= k < ls.len() ==> !(#[trigger] ls[k]).contains('\n'),
    ensures
        mac_backup_text(ls).len() == 0 || mac_backup_text(ls).last() == '\n',
        lines(mac_backup_text(ls)) == mac_backup_lines(ls),
    decreases ls.len(),
{
    lemma_mac_keys();
    if ls.len() == 0 {
        assert(lines(Seq::<char>::empty()) =~= Seq::<Seq<char>>::empty());
    } else {
        let d = ls.drop_last();
        assert forall|k: int| 0 <= k < d.len() implies !(#[trigger] d[k]).contains('\n') by {
            assert(d[k] == ls[k]);
        }
        lemma_mac_backup_lines(d);
        let line = ls.last();
        assert(!line.contains('\n')) by {
            assert(line == ls[ls.len() - 1]);
        }
        match split_first(line, ':') {
            Some(kv) => match mac_key(trim(kv.0)) {
                Some(k) => {
                    crate::text::lemma_index_of(line, ':');
                    let i = crate::text::index_of(line, ':');
                    assert(kv.1 == line.skip(i + 1));
                    assert(!kv.1.contains('\n')) by {
                        assert forall|j: int| 0 <= j < kv.1.len() implies kv.1[j] != '\n' by {
                            assert(kv.1[j] == line[i + 1 + j]);
                        }
                    }
                    let v = trim(kv.1);
                    lemma_trim_keeps_out(kv.1, '\n');
                    let l = k + seq!['='] + v;
                    assert(!l.contains('\n')) by {
                        assert forall|j: int| 0 <= j < l.len() implies l[j] != '\n' by {
                            if j < k.len() {
                                assert(l[j] == k[j]);
                            } else if j > k.len() {
                                assert(l[j] == v[j - k.len() - 1]);
                            }
                        }
                    }
                    assert(strip_cr(l) == l) by {
                        if v.len() > 0 {
                            assert(l.last() == v.last());
                            assert(!is_whitespace(v.last()));
                        }
                    }
                    assert(mac_entry(line) =~= l + seq!['\n']);
                    assert(mac_backup_text(ls) =~= mac_backup_text(d) + l + seq!['\n']);
                    lemma_lines_append_line(mac_backup_text(d), l);
                },
                None => {
                    assert(mac_entry(line) =~= Seq::<char>::empty());
                    assert(mac_backup_text(ls) =~= mac_backup_text(d));
                    assert(mac_backup_lines(ls) =~= mac_backup_lines(d));
                },
            },
            None => {
                assert(mac_entry(line) =~= Seq::<char>::empty());
                assert(mac_backup_text(ls) =~= mac_backup_text(d));
                assert(mac_backup_lines(ls) =~= mac_backup_lines(d));
            },
        }
    }
}

/// Reading a key back from the backup lines gives the field it was kept from.
proof fn lemma_mac_backup_values(ls: Seq<Seq<char>>, key: Seq<char>, field: Seq<char>)
    requires
        mac_key(field) == Some(key),
    ensures
        last_value(mac_backup_lines(ls), key) == mac_field_value(ls, field),
    decreases ls.len(),
{
    lemma_mac_keys();
    if ls.len() > 0 {
        let d = ls.drop_last();
        lemma_mac_backup_values(d, key, field);
        let line = ls.last();
        match split_first(line, ':') {
            Some(kv) => match mac_key(trim(kv.0)) {
                Some(k) => {
                    let l = k + seq!['='] + trim(kv.1);
                    crate::text::lemma_split_first_join(k, '=', trim(kv.1));
                    let bl = mac_backup_lines(ls);
                    assert(bl =~= mac_backup_lines(d).push(l));
                    assert(bl.drop_last() =~= mac_backup_lines(d));
                    assert((k == key) == (trim(kv.0) == field));
                },
                None => {
                    assert(mac_backup_lines(ls) =~= mac_backup_lines(d));
                    assert(trim(kv.0) != field);
                },
            },
            None => {
                assert(mac_backup_lines(ls) =~= mac_backup_lines(d));
            },
        }
    }
}

/// Putting the macOS SOCKS proxy back from its backup gives the settings of
/// the listing that was backed up: on exactly when its last `Enabled` field
/// says `Yes`, and its last `Server` and `Port` fields.
pub proof fn law_mac_backup_restores(info: Seq<char>)
    ensures
        mac_restored(mac_backup_text(lines(info))) == (
            if mac_field_value(lines(info), "Enabled"@) == Some("Yes"@) {
                "on"@
            } else {
                "off"@
            },
            value_or(mac_field_value(lines(info), "Server"@), Seq::empty()),
            value_or(mac_field_value(lines(info), "Port"@), Seq::empty()),
        ),
        mac_disable_plan(Some(mac_backup_text(lines(info)))) == {
            let on = mac_field_value(lines(info), "Enabled"@) == Some("Yes"@);
            let server = value_or(mac_field_value(lines(info), "Server"@), Seq::empty());
            let port = value_or(mac_field_value(lines(info), "Port"@), Seq::empty());
            (if on && server.len() > 0 {
                seq![wifi("-setsocksfirewallproxy"@, seq![server, port])]
            } else {
                Seq::empty()
            }) + seq![
                wifi(
                    "-setsocksfirewallproxystate"@,
                    seq![
                        if on {
                            "on"@
                        } else {
                            "off"@
                        },
                    ],
                ),
            ]
        },
{
    let ls = lines(info);
    lemma_lines_have_no_newline(info);
    lemma_mac_backup_lines(ls);
    reveal_strlit("Enabled");
    reveal_strlit("Server");
    reveal_strlit("Port");
    assert("Enabled"@ != "Server"@) by {
        assert("Enabled"@[0] != "Server"@[0]);
    }
    assert("Enabled"@ != "Port"@) by {
        assert("Enabled"@[0] != "Port"@[0]);
    }
    assert("Server"@ != "Port"@) by {
        assert("Server"@[0] != "Port"@[0]);
    }
    lemma_mac_backup_values(ls, "enabled"@, "Enabled"@);
    lemma_mac_backup_values(ls, "server"@, "Server"@);
    lemma_mac_backup_values(ls, "port"@, "Port"@);
    reveal_strlit("on");
    reveal_strlit("off");
    assert("on"@ != "off"@) by {
        assert("on"@.len() != "off"@.len());
    }
}

/// The macOS SOCKS proxy settings read back from a backup.
#[derive(Debug)]
pub struct MacProxy {
    /// `on` or `off`.
    pub enabled: String,
    pub server: String,
    pub port: String,
}

/// What a backup gives back: `on` when the last `enabled` line says `Yes`,
/// else `off`; the last `server` and `port` values, else empty.
pub open spec fn mac_restored(backup: Seq<char>) -> (Seq<char>, Seq<char>, Seq<char>) {
    (
        if last_value(lines(backup), "enabled"@) == Some("Yes"@) {
            "on"@
        } else {
            "off"@
        },
        value_or(last_value(lines(backup), "server"@), Seq::empty()),
        value_or(last_value(lines(backup), "port"@), Seq::empty()),
    )
}

/// Reads the macOS SOCKS proxy settings back from a backup; see `mac_restored`.
pub fn mac_restore(backup: &str) -> (r: MacProxy)
    ensures
        (r.enabled@, r.server@, r.port@) == mac_restored(backup@),
{
    let v = chars_of(backup);
    let spans = line_spans(&v);
    let k_enabled = chars_of("enabled");
    let k_server = chars_of("server");
    let k_port = chars_of("port");
    let enabled = last_value_span(&v, &spans, &k_enabled);
    let server = last_value_span(&v, &spans, &k_server);
    let port = last_value_span(&v, &spans, &k_port);
    let on = match enabled {
        Some((a, b)) => field_is(&v, a, b, "Yes"),
        None => false,
    };
    let r = MacProxy {
        enabled: if on {
            text("on")
        } else {
            text("off")
        },
        server: value_string(backup, &v, server, ""),
        port: value_string(backup, &v, port, ""),
    };
    proof {
        reveal_strlit("");
        assert(""@ =~= Seq::<char>::empty());
    }
    r
}

/// `networksetup <args>` for the Wi-Fi service.
pub open spec fn wifi(verb: Seq<char>, rest: Seq<Seq<char>>) -> (Seq<Seq<char>>, bool) {
    run(seq![verb, "Wi-Fi"@] + rest)
}

fn wifi_command(verb: &str, rest: Vec<String>) -> (c: Command)
    ensures
        c.deep_view() == wifi(verb@, rest.deep_view()),
{
    let mut args = vec![text(verb), text("Wi-Fi")];
    let mut rest = rest;
    let ghost rest_view = rest.deep_view();
    args.append(&mut rest);
    assert(args.deep_view() =~= seq![verb@, "Wi-Fi"@] + rest_view);
    command(args, true)
}

/// Pointing the macOS SOCKS proxy at `addr` and turning it on.
pub open spec fn mac_enable_plan(addr: Seq<char>) -> Seq<(Seq<Seq<char>>, bool)> {
    seq![
        wifi("-setsocksfirewallproxy"@, seq![host_port(addr).0, host_port(addr).1]),
        wifi("-setsocksfirewallproxystate"@, seq!["on"@]),
    ]
}

/// The commands that point the macOS SOCKS proxy at `addr`.
pub fn mac_enable_commands(addr: &str) -> (c: Vec<Command>)
    ensures
        c.deep_view() == mac_enable_plan(addr@),
{
    let (host, port) = split_host_port(addr);
    let hp = vec![host, port];
    assert(hp.deep_view() =~= seq![host_port(addr@).0, host_port(addr@).1]);
    let on = vec![text("on")];
    assert(on.deep_view() =~= seq!["on"@]);
    let c = vec![
        wifi_command("-setsocksfirewallproxy", hp),
        wifi_command("-setsocksfirewallproxystate", on),
    ];
    assert(c.deep_view() =~= mac_enable_plan(addr@));
    c
}

/// Turning the macOS SOCKS proxy off: with a backup, its server and port
/// when it was on with a server, then its on/off state; without one, off.
pub open spec fn mac_disable_plan(backup: Option<Seq<char>>) -> Seq<(Seq<Seq<char>>, bool)> {
    match backup {
        Some(b) => {
            let (enabled, server, port) = mac_restored(b);
            (if enabled == "on"@ && server.len() > 0 {
                seq![wifi("-setsocksfirewallproxy"@, seq![server, port])]
            } else {
                Seq::empty()
            }) + seq![wifi("-setsocksfirewallproxystate"@, seq![enabled])]
        },
        None => seq![wifi("-setsocksfirewallproxystate"@, seq!["off"@])],
    }
}

/// The commands that turn the macOS SOCKS proxy off; see `mac_disable_plan`.
pub fn mac_disable_commands(backup: Option<&str>) -> (c: Vec<Command>)
    ensures
        c.deep_view() == mac_disable_plan(
            match backup {
                Some(b) => Some(b@),
                None => None,
            },
        ),
{
    match backup {
        Some(b) => {
            let r = mac_restore(b);
            let mut c: Vec<Command> = Vec::new();
            let on = str_eq(r.enabled.as_str(), "on");
            if on && !r.server.as_str().is_empty() {
                let sp = vec![r.server, r.port];
                assert(sp.deep_view() =~= seq![mac_restored(b@).1, mac_restored(b@).2]);
                c.push(wifi_command("-setsocksfirewallproxy", sp));
            }
            let st = vec![r.enabled];
            assert(st.deep_view() =~= seq![mac_restored(b@).0]);
            c.push(wifi_command("-setsocksfirewallproxystate", st));
            assert(c.deep_view() =~= mac_disable_plan(Some(b@)));
            c
        },
        None => {
            let off = vec![text("off")];
            assert(off.deep_view() =~= seq!["off"@]);
            let c = vec![wifi_command("-setsocksfirewallproxystate", off)];
            assert(c.deep_view() =~= mac_disable_plan(None));
            c
        },
    }
}


// ---------------------------------------------------------------- Windows

/// The value of `name` on one line of `reg query` output: the line trimmed
/// must start with `name`; what follows, trimmed at its start, is split at
/// its first whitespace (after the type, such as `REG_SZ`); the rest, trimmed
/// at its start and without a leading `0x`, is the value.
pub open spec fn reg_line_value(line: Seq<char>, name: Seq<char>) -> Option<Seq<char>> {
    let l = trim(line);
    if starts_with(l, name) {
        let rest = trim_start(l.skip(name.len() as int));
        let i = index_of_whitespace(rest);
        if i < 0 {
            None
        } else {
            let v = trim_start(rest.skip(i + 1));
            Some(
                if starts_with(v, "0x"@) {
                    v.skip(2)
                } else {
                    v
                },
            )
        }
    } else {
        None
    }
}

/// The value of `name` on the first line of `reg query` output that has one.
pub open spec fn reg_value(ls: Seq<Seq<char>>, name: Seq<char>) -> Option<Seq<char>>
    decreases ls.len(),
{
    if ls.len() == 0 {
        None
    } else {
        match reg_line_value(ls[0], name) {
            Some(v) => Some(v),
            None => reg_value(ls.drop_first(), name),
        }
    }
}

/// The span of the value of `name` on the line `v[lo..hi]`; see `reg_line_value`.
fn reg_line_span(v: &Vec<char>, lo: usize, hi: usize, nm: &Vec<char>) -> (r: Option<(usize, usize)>)
    requires
        lo <= hi <= v@.len(),
    ensures
        match r {
            Some(ab) => ab.0 <= ab.1 <= v@.len() && reg_line_value(
                v@.subrange(lo as int, hi as int),
                nm@,
            ) == Some(v@.subrange(ab.0 as int, ab.1 as int)),
            None => reg_line_value(v@.subrange(lo as int, hi as int), nm@) is None,
        },
{
    let ghost line = v@.subrange(lo as int, hi as int);
    let (a, b) = trim_at(v, lo, hi, &Trim::Whitespace);
    let ghost l = v@.subrange(a as int, b as int);
    assert(l == trim(line));
    let m = nm.len();
    if m <= b - a && range_is(v, a, a + m, nm) {
        assert(l.take(m as int) =~= v@.subrange(a as int, a + m));
        let c = trim_start_at(v, a + m, b, &Trim::Whitespace);
        assert(l.skip(m as int) =~= v@.subrange(a + m, b as int));
        let ghost rest = v@.subrange(c as int, b as int);
        assert(rest == trim_start(l.skip(m as int)));
        match find_whitespace(v, c, b) {
            Some(w) => {
                let d = trim_start_at(v, w + 1, b, &Trim::Whitespace);
                assert(rest.skip(w - c + 1) =~= v@.subrange(w + 1, b as int));
                let ghost val = v@.subrange(d as int, b as int);
                assert(val == trim_start(rest.skip(w - c + 1)));
                let hex = b - d >= 2 && v[d] == '0' && v[d + 1] == 'x';
                proof {
                    reveal_strlit("0x");
                    assert("0x"@ =~= seq!['0', 'x']);
                    if b - d >= 2 {
                        assert(val.take(2) =~= seq![v@[d as int], v@[d + 1]]);
                    }
                }
                let start = if hex {
                    d + 2
                } else {
                    d
                };
                assert(hex ==> val.skip(2) =~= v@.subrange(start as int, b as int));
                Some((start, b))
            },
            None => None,
        }
    } else {
        if m <= b - a {
            assert(l.take(m as int) =~= v@.subrange(a as int, a + m));
        }
        None
    }
}

/// All characters of `s` are whitespace.
pub open spec fn all_whitespace(s: Seq<char>) -> bool {
    forall|i: int| 0 <= i < s.len() ==> is_whitespace(#[trigger] s[i])
}

/// No character of `s` is whitespace.
pub open spec fn no_whitespace(s: Seq<char>) -> bool {
    forall|i: int| 0 <= i < s.len() ==> !is_whitespace(#[trigger] s[i])
}

/// A `reg query` line `NAME  TYPE  0x<digits>` (any indentation and runs of
/// whitespace between the fields, anything trailing that is whitespace) reads
/// as the text after `0x`, unchanged: `0x0` reads as `0`, `0x1` as `1`. A line
/// `NAME  TYPE  value` whose value does not start with `0x` reads as the value.
pub proof fn law_reg_line_reads_value(
    lead: Seq<char>,
    name: Seq<char>,
    gap1: Seq<char>,
    typ: Seq<char>,
    gap2: Seq<char>,
    value: Seq<char>,
    trail: Seq<char>,
)
    requires
        all_whitespace(lead),
        all_whitespace(gap1),
        all_whitespace(gap2),
        all_whitespace(trail),
        gap1.len() > 0,
        gap2.len() > 0,
        name.len() > 0,
        typ.len() > 0,
        value.len() > 0,
        no_whitespace(name),
        no_whitespace(typ),
        no_whitespace(value),
    ensures
        reg_line_value(lead + name + gap1 + typ + gap2 + value + trail, name) == Some(
            if value.len() >= 2 && value[0] == '0' && value[1] == 'x' {
                value.skip(2)
            } else {
                value
            },
        ),
{
    let ws = Trim::Whitespace;
    let core = name + gap1 + typ + gap2 + value;
    let line = lead + name + gap1 + typ + gap2 + value + trail;
    assert(line =~= lead + (core + trail));
    assert(core[0] == name[0]);
    lemma_trim_start_skips(lead, core + trail, ws);
    assert((core + trail)[0] == core[0]);
    lemma_trim_start_stops(core + trail, ws);
    lemma_trim_end_skips(core, trail, ws);
    assert(core.last() == value.last());
    assert(!is_whitespace(value[value.len() - 1]));
    lemma_trim_end_stops(core, ws);
    assert(trim(line) == core);
    assert(core.take(name.len() as int) =~= name);
    let after = typ + gap2 + value;
    assert(core.skip(name.len() as int) =~= gap1 + after);
    lemma_trim_start_skips(gap1, after, ws);
    assert(after[0] == typ[0]);
    lemma_trim_start_stops(after, ws);
    let rest = trim_start(core.skip(name.len() as int));
    assert(rest == after);
    assert(after =~= typ + (gap2 + value));
    assert((gap2 + value)[0] == gap2[0]);
    lemma_index_of_whitespace_join(typ, gap2 + value);
    let g = gap2.skip(1);
    assert(after.skip(typ.len() as int + 1) =~= g + value);
    assert forall|i: int| 0 <= i < g.len() implies is_whitespace(#[trigger] g[i]) by {
        assert(g[i] == gap2[i + 1]);
    }
    lemma_trim_start_skips(g, value, ws);
    lemma_trim_start_stops(value, ws);
    reveal_strlit("0x");
    assert("0x"@ =~= seq!['0', 'x']);
    if value.len() >= 2 {
        assert(value.take(2) =~= seq![value[0], value[1]]);
    }
}

/// Reads the value of `name` from the text of `reg query` output; `None`
/// when no line has it.
pub fn read_value(out: &str, name: &str) -> (r: Option<String>)
    ensures
        match r {
            Some(v) => reg_value(lines(out@), name@) == Some(v@),
            None => reg_value(lines(out@), name@) is None,
        },
{
    let v = chars_of(out);
    let nm = chars_of(name);
    let spans = line_spans(&v);
    let ghost ls = lines(v@);
    let n = spans.len();
    let mut k: usize = 0;
    assert(ls.skip(0) =~= ls);
    while k < n
        invariant
            n == spans@.len() == ls.len(),
            ls == lines(v@),
            v@ == out@,
            nm@ == name@,
            k <= n,
            forall|j: int| 0 <= j < spans@.len() ==> #[trigger] spans@[j].0 <= spans@[j].1 <= v@.len(),
            forall|j: int|
                0 <= j < spans@.len() ==> v@.subrange(spans@[j].0 as int, spans@[j].1 as int)
                    == #[trigger] ls[j],
            reg_value(ls, name@) == reg_value(ls.skip(k as int), name@),
        decreases n - k,
    {
        let (lo, hi) = spans[k];
        let ghost line = ls[k as int];
        assert(v@.subrange(lo as int, hi as int) == line);
        assert(ls.skip(k as int)[0] == line);
        assert(ls.skip(k as int).drop_first() =~= ls.skip(k + 1));
        match reg_line_span(&v, lo, hi, &nm) {
            Some((start, b)) => {
                return Some(string_of(out, &v, start, b));
            },
            None => {},
        }
        k = k + 1;
    }
    assert(ls.skip(n as int) =~= Seq::<Seq<char>>::empty());
    None
}

/// The registry key that holds the proxy settings.
pub open spec fn internet_settings() -> Seq<char> {
    "HKCU\\Software\\Microsoft\\Windows\\CurrentVersion\\Internet Settings"@
}

/// One backup line: `name=value`, with an empty value for a value that did not exist.
pub open spec fn reg_backup_line(name: Seq<char>, value: Option<Seq<char>>) -> Seq<char> {
    name + "="@ + value_or(value, Seq::empty()) + "\n"@
}

/// The backup of the three proxy values: `ProxyEnable`, `ProxyServer`, `ProxyOverride`.
pub open spec fn windows_backup_text(
    enable: Option<Seq<char>>,
    server: Option<Seq<char>>,
    overrides: Option<Seq<char>>,
) -> Seq<char> {
    reg_backup_line("ProxyEnable"@, enable) + reg_backup_line("ProxyServer"@, server)
        + reg_backup_line("ProxyOverride"@, overrides)
}

fn append_backup_line(b: &mut String, name: &str, value: Option<&str>)
    ensures
        final(b)@ == old(b)@ + reg_backup_line(
            name@,
            match value {
                Some(s) => Some(s@),
                None => None,
            },
        ),
{
    b.append(name);
    b.append("=");
    match value {
        Some(s) => b.append(s),
        None => {},
    }
    b.append("\n");
    proof {
        reveal_strlit("");
    }
    assert(final(b)@ =~= old(b)@ + reg_backup_line(
        name@,
        match value {
            Some(s) => Some(s@),
            None => None,
        },
    ));
}

/// The names of the values that are backed up, in backup order.
pub fn proxy_value_names() -> (r: (&'static str, &'static str, &'static str))
    ensures
        r.0@ == "ProxyEnable"@,
        r.1@ == "ProxyServer"@,
        r.2@ == "ProxyOverride"@,
{
    ("ProxyEnable", "ProxyServer", "ProxyOverride")
}

/// Writes the backup of the three proxy values, each `None` when it did not exist.
pub fn windows_backup(enable: Option<&str>, server: Option<&str>, overrides: Option<&str>) -> (b:
    String)
    ensures
        b@ == windows_backup_text(
            match enable {
                Some(s) => Some(s@),
                None => None,
            },
            match server {
                Some(s) => Some(s@),
                None => None,
            },
            match overrides {
                Some(s) => Some(s@),
                None => None,
            },
        ),
{
    let mut b = String::new();
    append_backup_line(&mut b, "ProxyEnable", enable);
    append_backup_line(&mut b, "ProxyServer", server);
    append_backup_line(&mut b, "ProxyOverride", overrides);
    assert(b@ =~= windows_backup_text(
        match enable {
            Some(s) => Some(s@),
            None => None,
        },
        match server {
            Some(s) => Some(s@),
            None => None,
        },
        match overrides {
            Some(s) => Some(s@),
            None => None,
        },
    ));
    b
}

/// `reg delete` of one value; a failure is ignored.
pub open spec fn reg_delete(name: Seq<char>) -> (Seq<Seq<char>>, bool) {
    (seq!["delete"@, internet_settings(), "/v"@, name, "/f"@], false)
}

/// `reg add` of one value of type `typ`.
pub open spec fn reg_add(name: Seq<char>, typ: Seq<char>, value: Seq<char>) -> (
    Seq<Seq<char>>,
    bool,
) {
    run(seq!["add"@, internet_settings(), "/v"@, name, "/t"@, typ, "/d"@, value, "/f"@])
}

/// What putting one backup line back does: a line without `=` does nothing;
/// an empty value deletes the value; `ProxyEnable` is written as a number,
/// anything else as a string.
pub open spec fn reg_restore_step(line: Seq<char>) -> Seq<(Seq<Seq<char>>, bool)> {
    match split_first(line, '=') {
        None => Seq::empty(),
        Some(kv) => if kv.1.len() == 0 {
            seq![reg_delete(kv.0)]
        } else if kv.0 == "ProxyEnable"@ {
            seq![reg_add(kv.0, "REG_DWORD"@, kv.1)]
        } else {
            seq![reg_add(kv.0, "REG_SZ"@, kv.1)]
        },
    }
}

/// Putting the backup lines back, one after the other.
pub open spec fn reg_restore_plan(ls: Seq<Seq<char>>) -> Seq<(Seq<Seq<char>>, bool)>
    decreases ls.len(),
{
    if ls.len() == 0 {
        Seq::empty()
    } else {
        reg_restore_plan(ls.drop_last()) + reg_restore_step(ls.last())
    }
}

fn reg_delete_command(name: String) -> (c: Command)
    ensures
        c.deep_view() == reg_delete(name@),
{
    let args = vec![
        text("delete"),
        text("HKCU\\Software\\Microsoft\\Windows\\CurrentVersion\\Internet Settings"),
        text("/v"),
        name,
        text("/f"),
    ];
    let c = command(args, false);
    assert(c.args.deep_view() =~= reg_delete(name@).0);
    c
}

fn reg_add_command(name: String, typ: &str, value: String) -> (c: Command)
    ensures
        c.deep_view() == reg_add(name@, typ@, value@),
{
    let args = vec![
        text("add"),
        text("HKCU\\Software\\Microsoft\\Windows\\CurrentVersion\\Internet Settings"),
        text("/v"),
        name,
        text("/t"),
        text(typ),
        text("/d"),
        value,
        text("/f"),
    ];
    let c = command(args, true);
    assert(c.args.deep_view() =~= reg_add(name@, typ@, value@).0);
    c
}

/// The commands that put a backup back; see `reg_restore_plan`.
pub fn windows_restore_commands(backup: &str) -> (c: Vec<Command>)
    ensures
        c.deep_view() == reg_restore_plan(lines(backup@)),
{
    let v = chars_of(backup);
    let spans = line_spans(&v);
    let ghost ls = lines(v@);
    let n = spans.len();
    let enable = chars_of("ProxyEnable");
    let mut c: Vec<Command> = Vec::new();
    let mut k: usize = 0;
    assert(ls.take(0) =~= Seq::<Seq<char>>::empty());
    while k < n
        invariant
            n == spans@.len() == ls.len(),
            ls == lines(v@),
            v@ == backup@,
            enable@ == "ProxyEnable"@,
            k <= n,
            forall|j: int| 0 <= j < spans@.len() ==> #[trigger] spans@[j].0 <= spans@[j].1 <= v@.len(),
            forall|j: int|
                0 <= j < spans@.len() ==> v@.subrange(spans@[j].0 as int, spans@[j].1 as int)
                    == #[trigger] ls[j],
            c.deep_view() == reg_restore_plan(ls.take(k as int)),
        decreases n - k,
    {
        let (lo, hi) = spans[k];
        let ghost line = ls[k as int];
        assert(v@.subrange(lo as int, hi as int) == line);
        assert(ls.take(k + 1).drop_last() =~= ls.take(k as int));
        assert(ls.take(k + 1).last() == line);
        let ghost before = c.deep_view();
        match find_char(&v, lo, hi, '=') {
            Some(eq) => {
                assert(line.take(eq - lo) =~= v@.subrange(lo as int, eq as int));
                assert(line.skip(eq - lo + 1) =~= v@.subrange(eq + 1, hi as int));
                let name = string_of(backup, &v, lo, eq);
                if eq + 1 == hi {
                    c.push(reg_delete_command(name));
                } else {
                    let value = string_of(backup, &v, eq + 1, hi);
                    if range_is(&v, lo, eq, &enable) {
                        c.push(reg_add_command(name, "REG_DWORD", value));
                    } else {
                        c.push(reg_add_command(name, "REG_SZ", value));
                    }
                }
                assert(c.deep_view() =~= before + reg_restore_step(line));
            },
            None => {
                assert(reg_restore_step(line) =~= Seq::<(Seq<Seq<char>>, bool)>::empty());
                assert(c.deep_view() =~= before + reg_restore_step(line));
            },
        }
        k = k + 1;
    }
    assert(ls.take(n as int) =~= ls);
    c
}

/// What putting back one backed-up value does: a value that existed (and
/// was not empty) is written again, `ProxyEnable` as a number and the others
/// as strings; one that did not exist is deleted.
pub open spec fn reg_value_restored(name: Seq<char>, value: Option<Seq<char>>) -> (
    Seq<Seq<char>>,
    bool,
) {
    let v = value_or(value, Seq::empty());
    if v.len() == 0 {
        reg_delete(name)
    } else if name == "ProxyEnable"@ {
        reg_add(name, "REG_DWORD"@, v)
    } else {
        reg_add(name, "REG_SZ"@, v)
    }
}

/// One backup line `name=value` is put back as `reg_value_restored` says.
pub proof fn lemma_reg_restore_line(name: Seq<char>, value: Option<Seq<char>>)
    requires
        !name.contains('='),
        !name.contains('\n'),
        line_safe(value_or(value, Seq::empty())),
    ensures
        reg_restore_step(name + seq!['='] + value_or(value, Seq::empty())) == seq![
            reg_value_restored(name, value),
        ],
{
    lemma_key_value_line(name, value_or(value, Seq::empty()));
}

/// Putting back the Windows proxy backup writes back every value that
/// existed, with its type, and deletes every value that did not, in backup
/// order, for values that a line holds unchanged.
#[verifier::spinoff_prover]
#[verifier::rlimit(40)]
pub proof fn law_windows_backup_restores(
    enable: Option<Seq<char>>,
    server: Option<Seq<char>>,
    overrides: Option<Seq<char>>,
)
    requires
        line_safe(value_or(enable, Seq::empty())),
        line_safe(value_or(server, Seq::empty())),
        line_safe(value_or(overrides, Seq::empty())),
    ensures
        windows_disable_plan(Some(windows_backup_text(enable, server, overrides))) == seq![
            reg_value_restored("ProxyEnable"@, enable),
            reg_value_restored("ProxyServer"@, server),
            reg_value_restored("ProxyOverride"@, overrides),
        ],
{
    reveal_strlit("ProxyEnable");
    reveal_strlit("ProxyServer");
    reveal_strlit("ProxyOverride");
    reveal_strlit("=");
    reveal_strlit("\n");
    let n1 = "ProxyEnable"@;
    let n2 = "ProxyServer"@;
    let n3 = "ProxyOverride"@;
    assert(n1 =~= seq!['P', 'r', 'o', 'x', 'y', 'E', 'n', 'a', 'b', 'l', 'e']);
    assert(n2 =~= seq!['P', 'r', 'o', 'x', 'y', 'S', 'e', 'r', 'v', 'e', 'r']);
    assert(n3 =~= seq!['P', 'r', 'o', 'x', 'y', 'O', 'v', 'e', 'r', 'r', 'i', 'd', 'e']);
    assert(!n1.contains('=') && !n1.contains('\n'));
    assert(!n2.contains('=') && !n2.contains('\n'));
    assert(!n3.contains('=') && !n3.contains('\n'));
    assert(n2 != n1) by {
        assert(n2[5] != n1[5]);
    }
    assert(n3 != n1) by {
        assert(n3.len() != n1.len());
    }
    let v1 = value_or(enable, Seq::empty());
    let v2 = value_or(server, Seq::empty());
    let v3 = value_or(overrides, Seq::empty());
    lemma_key_value_line(n1, v1);
    lemma_key_value_line(n2, v2);
    lemma_key_value_line(n3, v3);
    lemma_reg_restore_line(n1, enable);
    lemma_reg_restore_line(n2, server);
    lemma_reg_restore_line(n3, overrides);
    let l1 = n1 + seq!['='] + v1;
    let l2 = n2 + seq!['='] + v2;
    let l3 = n3 + seq!['='] + v3;
    let t0 = Seq::<char>::empty();
    let t1 = t0 + l1 + seq!['\n'];
    let t2 = t1 + l2 + seq!['\n'];
    let t3 = t2 + l3 + seq!['\n'];
    assert("="@ =~= seq!['=']);
    assert("\n"@ =~= seq!['\n']);
    assert(windows_backup_text(enable, server, overrides) =~= t3);
    lemma_lines_append_line(t0, l1);
    lemma_lines_append_line(t1, l2);
    lemma_lines_append_line(t2, l3);
    assert(lines(t0) =~= Seq::<Seq<char>>::empty());
    let ls = lines(t3);
    assert(ls =~= seq![l1, l2, l3]);
    let d1 = ls.drop_last();
    let d2 = d1.drop_last();
    let d3 = d2.drop_last();
    assert(d1 =~= seq![l1, l2]);
    assert(d2 =~= seq![l1]);
    assert(d3 =~= Seq::<Seq<char>>::empty());
    assert(reg_restore_plan(d3) =~= Seq::<(Seq<Seq<char>>, bool)>::empty());
    assert(reg_restore_plan(d2) =~= seq![reg_value_restored(n1, enable)]);
    assert(reg_restore_plan(d1) =~= seq![
        reg_value_restored(n1, enable),
        reg_value_restored(n2, server),
    ]);
    assert(reg_restore_plan(ls) =~= seq![
        reg_value_restored(n1, enable),
        reg_value_restored(n2, server),
        reg_value_restored(n3, overrides),
    ]);
}

/// Pointing the Windows proxy at `addr`: proxy on, its server, and only the
/// loopback addresses exempt.
pub open spec fn windows_enable_plan(addr: Seq<char>) -> Seq<(Seq<Seq<char>>, bool)> {
    seq![
        reg_add("ProxyEnable"@, "REG_DWORD"@, "1"@),
        reg_add("ProxyServer"@, "REG_SZ"@, addr),
        reg_add("ProxyOverride"@, "REG_SZ"@, "localhost;127.*;<local>"@),
    ]
}

/// The commands that point the Windows proxy at `addr`.
pub fn windows_enable_commands(addr: &str) -> (c: Vec<Command>)
    ensures
        c.deep_view() == windows_enable_plan(addr@),
{
    let c = vec![
        reg_add_command(text("ProxyEnable"), "REG_DWORD", text("1")),
        reg_add_command(text("ProxyServer"), "REG_SZ", text(addr)),
        reg_add_command(text("ProxyOverride"), "REG_SZ", text("localhost;127.*;<local>")),
    ];
    assert(c.deep_view() =~= windows_enable_plan(addr@));
    c
}

/// Turning the Windows proxy off: with a backup, putting it back; without
/// one, proxy off.
pub open spec fn windows_disable_plan(backup: Option<Seq<char>>) -> Seq<(Seq<Seq<char>>, bool)> {
    match backup {
        Some(b) => reg_restore_plan(lines(b)),
        None => seq![reg_add("ProxyEnable"@, "REG_DWORD"@, "0"@)],
    }
}

/// The commands that turn the Windows proxy off; see `windows_disable_plan`.
pub fn windows_disable_commands(backup: Option<&str>) -> (c: Vec<Command>)
    ensures
        c.deep_view() == windows_disable_plan(
            match backup {
                Some(b) => Some(b@),
                None => None,
            },
        ),
{
    match backup {
        Some(b) => windows_restore_commands(b),
        None => {
            let c = vec![reg_add_command(text("ProxyEnable"), "REG_DWORD", text("0"))];
            assert(c.deep_view() =~= windows_disable_plan(None));
            c
        },
    }
}

} // verus!

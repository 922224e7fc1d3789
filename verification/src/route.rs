//! Forwarding rules: which rule a request for a host and a path goes to.
use vstd::prelude::*;
use crate::text::{ascii_fold, lemma_split_last_join, lemma_split_last_none, chars_of, eq_ignore_ascii_case, range_eq, range_eq_ignore_case, range_is, rfind_char, split_last, starts_with};

verus! {

/// Match condition of a rule.
#[derive(Debug, Clone)]
pub struct Match {
    /// Target host or `IP:PORT`, or `*` for every host.
    pub host: String,
    /// Prefix of the request path.
    pub prefix: String,
}

/// Where a matched request is forwarded.
#[derive(Debug, Clone)]
pub struct Forward {
    /// Address forwarded to.
    pub host: String,
    /// Path prefix forwarded to.
    pub prefix: String,
    /// Replace `match.prefix` with `forward.prefix` in the path.
    pub rewrite: bool,
    /// Fall back to the original host when the forward address cannot be reached.
    pub connect_fail_use_original_host: bool,
}

/// A forwarding rule.
#[derive(Debug, Clone)]
pub struct RouteRule {
    pub match_: Match,
    pub forward: Forward,
}

/// The port that a host without one is read as matching: `80`.
pub open spec fn port_80() -> Seq<char> {
    seq!['8', '0']
}

/// The port that a host without one is read as matching: `443`.
pub open spec fn port_443() -> Seq<char> {
    seq!['4', '4', '3']
}

/// Whether a rule host (`*`, `host` or `host:port`) matches a target
/// (`host` or `host:port`). Host names are compared ignoring ASCII case; a
/// rule without a port matches a target on the ports 80 and 443 or without a
/// port; a rule with a port matches only a target on that same port.
/// The port starts after the last `:`.
pub open spec fn host_matches(rule_host: Seq<char>, target: Seq<char>) -> bool {
    if rule_host == seq!['*'] {
        true
    } else {
        let t_host = match split_last(target, ':') {
            Some(hp) => hp.0,
            None => target,
        };
        let t_port = match split_last(target, ':') {
            Some(hp) => Some(hp.1),
            None => None,
        };
        match split_last(rule_host, ':') {
            Some(rp) => eq_ignore_ascii_case(rp.0, t_host) && t_port == Some(rp.1),
            None => eq_ignore_ascii_case(rule_host, t_host) && (t_port is None || t_port == Some(
                port_80(),
            ) || t_port == Some(port_443())),
        }
    }
}

/// Whether a rule takes a request for `host` on `path`: the path starts with
/// the rule's prefix and the host matches.
pub open spec fn rule_matches(rule: RouteRule, host: Seq<char>, path: Seq<char>) -> bool {
    starts_with(path, rule.match_.prefix@) && host_matches(rule.match_.host@, host)
}

impl RouteRule {
    /// A rule that rewrites the prefix and does not fall back to the original host.
    pub fn new(
        match_host: &str,
        match_path_prefix: &str,
        forward_host: &str,
        forward_path_prefix: &str,
    ) -> (r: Self)
        ensures
            r.match_.host@ == match_host@,
            r.match_.prefix@ == match_path_prefix@,
            r.forward.host@ == forward_host@,
            r.forward.prefix@ == forward_path_prefix@,
            r.forward.rewrite,
            !r.forward.connect_fail_use_original_host,
    {
        RouteRule {
            match_: Match { host: match_host.to_owned(), prefix: match_path_prefix.to_owned() },
            forward: Forward {
                host: forward_host.to_owned(),
                prefix: forward_path_prefix.to_owned(),
                rewrite: true,
                connect_fail_use_original_host: false,
            },
        }
    }

    /// Whether this rule takes a request for `host` whose path is `prefix`.
    pub fn matches(&self, host: &str, prefix: &str) -> (r: bool)
        ensures
            r == rule_matches(*self, host@, prefix@),
    {
        let path = chars_of(prefix);
        let p = chars_of(self.match_.prefix.as_str());
        let starts = p.len() <= path.len() && range_is(&path, 0, p.len(), &p);
        proof {
            if p.len() <= path.len() {
                assert(path@.subrange(0, p@.len() as int) =~= path@.take(p@.len() as int));
            }
        }
        starts && self.match_host(host)
    }

    /// Whether this rule's host matches `target`; see `host_matches`.
    pub fn match_host(&self, target: &str) -> (r: bool)
        ensures
            r == host_matches(self.match_.host@, target@),
    {
        let t = chars_of(target);
        let h = chars_of(self.match_.host.as_str());
        if h.len() == 1 && h[0] == '*' {
            assert(h@ =~= seq!['*']);
            return true;
        }
        assert(h@ != seq!['*']);
        let tn = t.len();
        let hn = h.len();
        assert(t@.subrange(0, tn as int) =~= t@);
        assert(h@.subrange(0, hn as int) =~= h@);
        let t_colon = rfind_char(&t, 0, tn, ':');
        let t_end = match t_colon {
            Some(i) => i,
            None => tn,
        };
        proof {
            match t_colon {
                Some(i) => {
                    assert(t@.subrange(0, i as int) =~= t@.take(i as int));
                    assert(t@.subrange(i + 1, tn as int) =~= t@.skip(i + 1));
                },
                None => {},
            }
        }
        match rfind_char(&h, 0, hn, ':') {
            Some(j) => {
                assert(h@.subrange(0, j as int) =~= h@.take(j as int));
                assert(h@.subrange(j + 1, hn as int) =~= h@.skip(j + 1));
                if !range_eq_ignore_case(&h, 0, j, &t, 0, t_end) {
                    return false;
                }
                match t_colon {
                    None => false,
                    Some(i) => range_eq(&t, i + 1, tn, &h, j + 1, hn),
                }
            },
            None => {
                if !range_eq_ignore_case(&h, 0, hn, &t, 0, t_end) {
                    return false;
                }
                match t_colon {
                    None => true,
                    Some(i) => {
                        let p80 = vec!['8', '0'];
                        let p443 = vec!['4', '4', '3'];
                        assert(p80@ =~= port_80());
                        assert(p443@ =~= port_443());
                        range_is(&t, i + 1, tn, &p80) || range_is(&t, i + 1, tn, &p443)
                    },
                }
            },
        }
    }

    /// A copy of this rule.
    pub fn duplicate(&self) -> (r: Self)
        ensures
            r == *self,
    {
        RouteRule {
            match_: Match { host: self.match_.host.clone(), prefix: self.match_.prefix.clone() },
            forward: Forward {
                host: self.forward.host.clone(),
                prefix: self.forward.prefix.clone(),
                rewrite: self.forward.rewrite,
                connect_fail_use_original_host: self.forward.connect_fail_use_original_host,
            },
        }
    }
}

/// The first rule, in order, that takes a request for `host` on `path`.
pub open spec fn resolve(rules: Seq<RouteRule>, host: Seq<char>, path: Seq<char>) -> Option<
    RouteRule,
>
    decreases rules.len(),
{
    if rules.len() == 0 {
        None
    } else if rule_matches(rules[0], host, path) {
        Some(rules[0])
    } else {
        resolve(rules.drop_first(), host, path)
    }
}

/// The first rule, in order, whose host matches `host`.
pub open spec fn resolve_by_host(rules: Seq<RouteRule>, host: Seq<char>) -> Option<RouteRule>
    decreases rules.len(),
{
    if rules.len() == 0 {
        None
    } else if host_matches(rules[0].match_.host@, host) {
        Some(rules[0])
    } else {
        resolve_by_host(rules.drop_first(), host)
    }
}


/// Two texts are the same up to ASCII case: equally long, and at each
/// position the same character, or the upper- and lower-case forms of one
/// ASCII letter (`A`..`Z` and the letter 32 code points above it).
pub open spec fn same_up_to_ascii_case(a: Seq<char>, b: Seq<char>) -> bool {
    a.len() == b.len() && forall|i: int|
        0 <= i < a.len() ==> a[i] == b[i] || (65 <= (a[i] as u32) <= 90 && (b[i] as u32) == (a[i]
            as u32) + 32) || (65 <= (b[i] as u32) <= 90 && (a[i] as u32) == (b[i] as u32) + 32)
}

proof fn lemma_fold_letter(x: char, y: char)
    ensures
        (ascii_fold(x) == ascii_fold(y)) == (x == y || (65 <= (x as u32) <= 90 && (y as u32) == (
        x as u32) + 32) || (65 <= (y as u32) <= 90 && (x as u32) == (y as u32) + 32)),
{
    if x as u32 == y as u32 {
        assert(x == y);
    }
}

/// Host names compare as `same_up_to_ascii_case` says.
pub proof fn lemma_names_compare(a: Seq<char>, b: Seq<char>)
    ensures
        eq_ignore_ascii_case(a, b) == same_up_to_ascii_case(a, b),
{
    if a.len() == b.len() {
        assert forall|i: int| 0 <= i < a.len() implies (ascii_fold(a[i]) == ascii_fold(b[i])) == (
        a[i] == b[i] || (65 <= (a[i] as u32) <= 90 && (b[i] as u32) == (a[i] as u32) + 32) || (65
            <= (b[i] as u32) <= 90 && (a[i] as u32) == (b[i] as u32) + 32)) by {
            lemma_fold_letter(a[i], b[i]);
        }
    }
}

/// The rule host `*` matches every target.
pub proof fn law_wildcard_matches_every_host(target: Seq<char>)
    ensures
        host_matches(seq!['*'], target),
{
}

/// A rule written without a port matches `name:port` exactly when the whole
/// name is the rule's host up to ASCII case (same length; a longer name such
/// as a subdomain does not match) and the port is `80` or `443`.
pub proof fn law_rule_without_port_matches_80_and_443(
    rule_host: Seq<char>,
    name: Seq<char>,
    port: Seq<char>,
)
    requires
        !rule_host.contains(':'),
        rule_host != seq!['*'],
        !port.contains(':'),
    ensures
        host_matches(rule_host, name + seq![':'] + port) == (same_up_to_ascii_case(rule_host, name)
            && (port == seq!['8', '0'] || port == seq!['4', '4', '3'])),
{
    lemma_split_last_join(name, ':', port);
    lemma_split_last_none(rule_host, ':');
    lemma_names_compare(rule_host, name);
}

/// A rule written with a port matches `name:port` exactly when the names are
/// the same up to ASCII case and the ports are the same text.
pub proof fn law_rule_with_port_matches_exactly(
    rule_name: Seq<char>,
    rule_port: Seq<char>,
    name: Seq<char>,
    port: Seq<char>,
)
    requires
        !rule_port.contains(':'),
        !port.contains(':'),
    ensures
        host_matches(rule_name + seq![':'] + rule_port, name + seq![':'] + port) == (
        same_up_to_ascii_case(rule_name, name) && port == rule_port),
{
    lemma_split_last_join(name, ':', port);
    lemma_split_last_join(rule_name, ':', rule_port);
    lemma_names_compare(rule_name, name);
    let r = rule_name + seq![':'] + rule_port;
    assert(r[rule_name.len() as int] == ':');
    assert(r != seq!['*']);
}

/// A target without a port is matched, on its whole name up to ASCII case,
/// only by a rule that names no port; a rule that names a port never matches it.
pub proof fn law_target_without_port(rule_host: Seq<char>, name: Seq<char>)
    requires
        !name.contains(':'),
        rule_host != seq!['*'],
    ensures
        host_matches(rule_host, name) == (!rule_host.contains(':') && same_up_to_ascii_case(
            rule_host,
            name,
        )),
{
    lemma_split_last_none(name, ':');
    lemma_names_compare(rule_host, name);
    crate::text::lemma_last_index_of(rule_host, ':');
    if rule_host.contains(':') {
        let k = choose|k: int| 0 <= k < rule_host.len() && rule_host[k] == ':';
        assert(rule_host[k] == ':');
    }
}

/// A rule takes a request exactly when the request's path begins with the
/// rule's whole prefix, character for character (a prefix found later in the
/// path does not count), and the rule's host matches.
pub proof fn law_rule_takes_paths_beginning_with_its_prefix(
    rule: RouteRule,
    host: Seq<char>,
    path: Seq<char>,
)
    ensures
        rule_matches(rule, host, path) == (rule.match_.prefix@.len() <= path.len() && (forall|i: int|
            0 <= i < rule.match_.prefix@.len() ==> path[i] == rule.match_.prefix@[i])
            && host_matches(rule.match_.host@, host)),
{
    let p = rule.match_.prefix@;
    if p.len() <= path.len() {
        if forall|i: int| 0 <= i < p.len() ==> path[i] == p[i] {
            assert(path.take(p.len() as int) =~= p);
        }
        if path.take(p.len() as int) == p {
            assert forall|i: int| 0 <= i < p.len() implies path[i] == p[i] by {
                assert(path.take(p.len() as int)[i] == path[i]);
            }
        }
    }
}

/// `resolve` gives the first rule, in order, that takes the request, and
/// nothing exactly when no rule takes it.
pub proof fn law_resolve_is_first_match(rules: Seq<RouteRule>, host: Seq<char>, path: Seq<char>)
    ensures
        resolve(rules, host, path) is None <==> forall|i: int|
            0 <= i < rules.len() ==> !rule_matches(#[trigger] rules[i], host, path),
        resolve(rules, host, path) is Some ==> exists|i: int|
            0 <= i < rules.len() && resolve(rules, host, path) == Some(#[trigger] rules[i])
                && rule_matches(rules[i], host, path) && forall|j: int|
                0 <= j < i ==> !rule_matches(#[trigger] rules[j], host, path),
    decreases rules.len(),
{
    if rules.len() > 0 {
        let rest = rules.drop_first();
        law_resolve_is_first_match(rest, host, path);
        assert forall|i: int| 0 < i < rules.len() implies rules[i] == rest[i - 1] by {}
        if !rule_matches(rules[0], host, path) {
            if resolve(rest, host, path) is Some {
                let k = choose|k: int|
                    0 <= k < rest.len() && resolve(rest, host, path) == Some(#[trigger] rest[k])
                        && rule_matches(rest[k], host, path) && forall|j: int|
                        0 <= j < k ==> !rule_matches(#[trigger] rest[j], host, path);
                assert(rules[k + 1] == rest[k]);
                assert forall|j: int| 0 <= j < k + 1 implies !rule_matches(
                    #[trigger] rules[j],
                    host,
                    path,
                ) by {
                    if j > 0 {
                        assert(rules[j] == rest[j - 1]);
                    }
                }
            } else {
                assert forall|i: int| 0 <= i < rules.len() implies !rule_matches(
                    #[trigger] rules[i],
                    host,
                    path,
                ) by {
                    if i > 0 {
                        assert(rules[i] == rest[i - 1]);
                    }
                }
            }
        }
    }
}

/// The host-only lookup gives the first rule, in order, whose host matches
/// the target (so the target's port counts: a rule without a port is found
/// only for ports 80 and 443 or none), and nothing exactly when no rule's host
/// matches.
pub proof fn law_resolve_by_host_is_first_match(rules: Seq<RouteRule>, host: Seq<char>)
    ensures
        resolve_by_host(rules, host) is None <==> forall|i: int|
            0 <= i < rules.len() ==> !host_matches((#[trigger] rules[i]).match_.host@, host),
        resolve_by_host(rules, host) is Some ==> exists|i: int|
            0 <= i < rules.len() && resolve_by_host(rules, host) == Some(#[trigger] rules[i])
                && host_matches(rules[i].match_.host@, host) && forall|j: int|
                0 <= j < i ==> !host_matches((#[trigger] rules[j]).match_.host@, host),
    decreases rules.len(),
{
    if rules.len() > 0 {
        let rest = rules.drop_first();
        law_resolve_by_host_is_first_match(rest, host);
        assert forall|i: int| 0 < i < rules.len() implies rules[i] == rest[i - 1] by {}
        if !host_matches(rules[0].match_.host@, host) {
            if resolve_by_host(rest, host) is Some {
                let k = choose|k: int|
                    0 <= k < rest.len() && resolve_by_host(rest, host) == Some(#[trigger] rest[k])
                        && host_matches(rest[k].match_.host@, host) && forall|j: int|
                        0 <= j < k ==> !host_matches((#[trigger] rest[j]).match_.host@, host);
                assert(rules[k + 1] == rest[k]);
                assert forall|j: int| 0 <= j < k + 1 implies !host_matches(
                    (#[trigger] rules[j]).match_.host@,
                    host,
                ) by {
                    if j > 0 {
                        assert(rules[j] == rest[j - 1]);
                    }
                }
            } else {
                assert forall|i: int| 0 <= i < rules.len() implies !host_matches(
                    (#[trigger] rules[i]).match_.host@,
                    host,
                ) by {
                    if i > 0 {
                        assert(rules[i] == rest[i - 1]);
                    }
                }
            }
        }
    }
}

/// When some rule takes a request for `host` on a path, some rule matches
/// `host` alone: a host-only lookup never misses a host that a full lookup finds.
pub proof fn law_full_match_implies_host_match(
    rules: Seq<RouteRule>,
    host: Seq<char>,
    path: Seq<char>,
)
    ensures
        resolve(rules, host, path) is Some ==> resolve_by_host(rules, host) is Some,
    decreases rules.len(),
{
    if rules.len() > 0 {
        law_full_match_implies_host_match(rules.drop_first(), host, path);
    }
}

/// The rule table that requests are resolved against.
pub struct RouteEngine {
    pub rules: Vec<RouteRule>,
}

impl RouteEngine {
    /// An engine holding `rules`, in that order.
    pub fn new(rules: Vec<RouteRule>) -> (r: Self)
        ensures
            r.rules@ == rules@,
    {
        RouteEngine { rules }
    }

    /// The first rule that takes a request for `host` on `path`, if any.
    pub fn resolve_target(&self, host: &str, path: &str) -> (r: Option<RouteRule>)
        ensures
            r == resolve(self.rules@, host@, path@),
    {
        let n = self.rules.len();
        let mut i: usize = 0;
        assert(self.rules@.skip(0) =~= self.rules@);
        while i < n
            invariant
                n == self.rules@.len(),
                i <= n,
                resolve(self.rules@, host@, path@) == resolve(
                    self.rules@.skip(i as int),
                    host@,
                    path@,
                ),
            decreases n - i,
        {
            let ghost rest = self.rules@.skip(i as int);
            assert(rest[0] == self.rules@[i as int]);
            assert(rest.drop_first() =~= self.rules@.skip(i + 1));
            if self.rules[i].matches(host, path) {
                return Some(self.rules[i].duplicate());
            }
            i = i + 1;
        }
        assert(self.rules@.skip(n as int) =~= Seq::<RouteRule>::empty());
        None
    }

    /// The first rule whose host matches `host`, if any.
    pub fn resolve_target_by_host(&self, host: &str) -> (r: Option<RouteRule>)
        ensures
            r == resolve_by_host(self.rules@, host@),
    {
        let n = self.rules.len();
        let mut i: usize = 0;
        assert(self.rules@.skip(0) =~= self.rules@);
        while i < n
            invariant
                n == self.rules@.len(),
                i <= n,
                resolve_by_host(self.rules@, host@) == resolve_by_host(
                    self.rules@.skip(i as int),
                    host@,
                ),
            decreases n - i,
        {
            let ghost rest = self.rules@.skip(i as int);
            assert(rest[0] == self.rules@[i as int]);
            assert(rest.drop_first() =~= self.rules@.skip(i + 1));
            if self.rules[i].match_host(host) {
                return Some(self.rules[i].duplicate());
            }
            i = i + 1;
        }
        assert(self.rules@.skip(n as int) =~= Seq::<RouteRule>::empty());
        None
    }

    /// Replaces the rule table.
    pub fn update_rules(&mut self, new_rules: Vec<RouteRule>)
        ensures
            final(self).rules@ == new_rules@,
    {
        self.rules = new_rules;
    }
}

} // verus!

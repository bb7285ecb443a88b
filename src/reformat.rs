//! Rewriting of lookup results by rules read from a configuration file.
//!
//! The file is split into lines. A line starting with `#` is a comment and an
//! empty line is skipped. `:X` makes `X` (a `sametypesequence` character) the
//! current dictionary type. Any other line is a rule `PATTERN OP REPL`, where
//! `OP` is the first unescaped `=`, `@` or `~`; `\t`, `\n`, `\r` stand for the
//! control bytes and `\c` for `c`. A rule without an operator, with an empty
//! pattern, or before any `:X` line is dropped.
//!
//! `=` replaces the pattern by `REPL`; `@` does the same after rendering `REPL`
//! (`@p` is the dictionary path, any other `@c` is dropped); `~` replaces each
//! match of the regular expression `PATTERN` by `REPL` taken literally.
use vstd::prelude::*;
use vstd::slice::slice_to_vec;
use vstd::utf8::{decode_utf8, valid_utf8};

use crate::pattern::{
    ac_builds, ac_rewrite, regex_compiles, regex_rewrite, utf8_string, views, Matcher, PlainSet,
};
use crate::result::DictError;

verus! {

/// A rule: its operator, its pattern and its replacement.
pub type RuleModel = (u8, Seq<u8>, Seq<u8>);

/// `=`, `~` or `@`.
pub open spec fn is_op(b: u8) -> bool {
    b == 61 || b == 126 || b == 64
}

/// The byte that an escape `\c` stands for.
pub open spec fn escaped(c: u8) -> u8 {
    if c == 116 {
        9
    } else if c == 110 {
        10
    } else if c == 114 {
        13
    } else {
        c
    }
}

/// The bytes of `v` from `i` on with escapes resolved; `esc` when `v[i - 1]`
/// was an unescaped backslash.
pub open spec fn unescape_at(v: Seq<u8>, i: int, esc: bool) -> Seq<u8>
    decreases v.len() - i,
{
    if i >= v.len() {
        Seq::empty()
    } else if !esc && v[i] == 92 {
        unescape_at(v, i + 1, true)
    } else {
        seq![if esc { escaped(v[i]) } else { v[i] }] + unescape_at(v, i + 1, false)
    }
}

/// Where the first unescaped operator of `v` from `i` on lands in the
/// unescaped bytes, `k` of them being already written; 0 when there is none.
pub open spec fn op_at(v: Seq<u8>, i: int, esc: bool, k: int) -> int
    decreases v.len() - i,
{
    if i >= v.len() {
        0
    } else if !esc && is_op(v[i]) {
        k
    } else if !esc && v[i] == 92 {
        op_at(v, i + 1, true, k)
    } else {
        op_at(v, i + 1, false, k + 1)
    }
}

/// The rule that a line states, if any.
pub open spec fn line_rule(v: Seq<u8>) -> Option<RuleModel> {
    let nv = unescape_at(v, 0, false);
    let k = op_at(v, 0, false, 0);
    if k > 0 {
        Some((nv[k], nv.subrange(0, k), nv.subrange(k + 1, nv.len() as int)))
    } else {
        None
    }
}

/// The lines of `c` from `i` on, the current one having begun at `ls`: pieces
/// between `\n` bytes, without a last empty one.
pub open spec fn lines_from(c: Seq<u8>, ls: int, i: int) -> Seq<Seq<u8>>
    decreases c.len() - i,
{
    if i >= c.len() {
        if ls < c.len() {
            seq![c.subrange(ls, c.len() as int)]
        } else {
            Seq::empty()
        }
    } else if c[i] == 10 {
        seq![c.subrange(ls, i)] + lines_from(c, i + 1, i + 1)
    } else {
        lines_from(c, ls, i + 1)
    }
}

/// The current dictionary type (0 for none) and the rules of each type, after
/// reading `lines`.
pub open spec fn config_state(lines: Seq<Seq<u8>>) -> (u8, Seq<Seq<RuleModel>>)
    decreases lines.len(),
{
    if lines.len() == 0 {
        (0, Seq::new(256, |t: int| Seq::<RuleModel>::empty()))
    } else {
        config_step(config_state(lines.drop_last()), lines.last())
    }
}

/// The rules of each dictionary type that the configuration `c` states.
pub open spec fn config_rules(c: Seq<u8>) -> Seq<Seq<RuleModel>> {
    config_state(lines_from(c, 0, 0)).1
}

/// The patterns of the plain (`=` and `@`) rules, in order.
pub open spec fn plain_froms(rs: Seq<RuleModel>) -> Seq<Seq<u8>>
    decreases rs.len(),
{
    if rs.len() == 0 {
        Seq::empty()
    } else if rs.last().0 != 126 {
        plain_froms(rs.drop_last()).push(rs.last().1)
    } else {
        plain_froms(rs.drop_last())
    }
}

/// The replacements of the plain rules, `@` ones rendered with `path`.
pub open spec fn plain_tos(rs: Seq<RuleModel>, path: Seq<u8>) -> Seq<Seq<u8>>
    decreases rs.len(),
{
    if rs.len() == 0 {
        Seq::empty()
    } else if rs.last().0 == 61 {
        plain_tos(rs.drop_last(), path).push(rs.last().2)
    } else if rs.last().0 == 64 {
        plain_tos(rs.drop_last(), path).push(render_at(rs.last().2, 0, false, path))
    } else {
        plain_tos(rs.drop_last(), path)
    }
}

/// `hay` after the regular expression (`~`) rules, in order.
pub open spec fn regex_pass(rs: Seq<RuleModel>, hay: Seq<u8>) -> Seq<u8>
    decreases rs.len(),
{
    if rs.len() == 0 {
        hay
    } else if rs.last().0 == 126 {
        regex_rewrite(decode_utf8(rs.last().1), regex_pass(rs.drop_last(), hay), rs.last().2)
    } else {
        regex_pass(rs.drop_last(), hay)
    }
}

/// A template rendered from position `i` on: after an `@`, a `p` stands for
/// `path` and any other byte is dropped; `@` bytes themselves are dropped.
pub open spec fn render_at(r: Seq<u8>, i: int, after_at: bool, path: Seq<u8>) -> Seq<u8>
    decreases r.len() - i,
{
    if i >= r.len() {
        Seq::empty()
    } else if r[i] == 64 {
        render_at(r, i + 1, true, path)
    } else if after_at {
        (if r[i] == 112 {
            path
        } else {
            Seq::empty()
        }) + render_at(r, i + 1, false, path)
    } else {
        seq![r[i]] + render_at(r, i + 1, false, path)
    }
}

/// `hay` rewritten by the rules `rs`: the regular expression rules in order,
/// then, where there are plain rules, all of them in one pass. Without rules
/// `hay` is kept.
pub open spec fn apply_rules(rs: Seq<RuleModel>, path: Seq<u8>, hay: Seq<u8>) -> Seq<u8> {
    if plain_froms(rs).len() == 0 {
        regex_pass(rs, hay)
    } else {
        ac_rewrite(plain_froms(rs), regex_pass(rs, hay), plain_tos(rs, path))
    }
}

/// Every regular expression rule is UTF-8 text that compiles, and each
/// dictionary type's plain patterns make an automaton.
pub open spec fn rules_valid(rules: Seq<Seq<RuleModel>>) -> bool {
    &&& forall|t: int, j: int|
        0 <= t < rules.len() && 0 <= j < rules[t].len() && rules[t][j].0 == 126 ==> valid_utf8(
            rules[t][j].1,
        ) && regex_compiles(decode_utf8(rules[t][j].1))
    &&& forall|t: int| 0 <= t < rules.len() && plain_froms(rules[t]).len() > 0 ==> ac_builds(plain_froms(rules[t]))
}

/// The pieces of `p` from `i` on between NUL bytes, the current one having
/// begun at `ls`; there is one more piece than there are NULs.
pub open spec fn segments_from(p: Seq<u8>, ls: int, i: int) -> Seq<Seq<u8>>
    decreases p.len() - i,
{
    if i >= p.len() {
        seq![p.subrange(ls, p.len() as int)]
    } else if p[i] == 0 {
        seq![p.subrange(ls, i)] + segments_from(p, i + 1, i + 1)
    } else {
        segments_from(p, ls, i + 1)
    }
}

/// One rewriting rule: a line with escapes resolved and the position of its
/// operator; a regular expression rule keeps its compiled form.
pub struct Replacer {
    line: Vec<u8>,
    op_idx: usize,
    matcher: Option<Matcher>,
}

impl Replacer {
    pub closed spec fn wf(&self) -> bool {
        &&& 0 < self.op_idx < self.line@.len()
        &&& is_op(self.line@[self.op_idx as int])
        &&& (self.matcher is Some <==> self.line@[self.op_idx as int] == 126)
        &&& (self.matcher matches Some(m) ==> m.source() == decode_utf8(self.model().1))
    }

    /// The operator stands where it is said to, after a non-empty pattern.
    pub closed spec fn shaped(&self) -> bool {
        &&& 0 < self.op_idx < self.line@.len()
        &&& is_op(self.line@[self.op_idx as int])
    }

    /// The operator, the pattern and the replacement.
    pub closed spec fn model(&self) -> RuleModel {
        (
            self.line@[self.op_idx as int],
            self.line@.subrange(0, self.op_idx as int),
            self.line@.subrange(self.op_idx + 1, self.line@.len() as int),
        )
    }
}

/// The models of the rules of each type.
pub open spec fn all_models(rules: Seq<Vec<Replacer>>) -> Seq<Seq<RuleModel>> {
    Seq::new(rules.len(), |t: int| models(rules[t]@))
}

/// One configuration line applied to the current type and the rules so far.
pub open spec fn config_step(st: (u8, Seq<Seq<RuleModel>>), v: Seq<u8>) -> (u8, Seq<Seq<RuleModel>>) {
    let (cur, rules) = st;
    if v.len() == 0 || v[0] == 35 {
        (cur, rules)
    } else if v.len() > 1 && v[0] == 58 {
        (v[1], rules)
    } else if cur != 0 && line_rule(v) is Some {
        (cur, rules.update(cur as int, rules[cur as int].push(line_rule(v)->0)))
    } else {
        (cur, rules)
    }
}

/// There are as many plain replacements as plain patterns.
proof fn lemma_plain_lengths(rs: Seq<RuleModel>, path: Seq<u8>)
    requires
        forall|j: int| 0 <= j < rs.len() ==> is_op(#[trigger] rs[j].0),
    ensures
        plain_tos(rs, path).len() == plain_froms(rs).len(),
    decreases rs.len(),
{
    if rs.len() > 0 {
        lemma_plain_lengths(rs.drop_last(), path);
    }
}

/// Resolves the escapes of a rule line and finds its operator: the bytes, and
/// the position of the first unescaped operator among them (0 when none).
pub fn unescape_line(v: &[u8]) -> (r: (Vec<u8>, usize))
    ensures
        r.0@ == unescape_at(v@, 0, false),
        r.1 == op_at(v@, 0, false, 0),
        r.1 > 0 ==> r.1 < r.0@.len() && is_op(r.0@[r.1 as int]),
{
    let mut nv: Vec<u8> = Vec::new();
    let mut i: usize = 0;
    let mut esc = false;
    let mut op_idx: usize = 0;
    let mut found = false;
    while i < v.len()
        invariant
            0 <= i <= v@.len(),
            nv@.len() <= i,
            nv@ + unescape_at(v@, i as int, esc) == unescape_at(v@, 0, false),
            found ==> op_idx == op_at(v@, 0, false, 0) && op_idx < nv@.len() && is_op(nv@[op_idx as int]),
            !found ==> op_at(v@, 0, false, 0) == op_at(v@, i as int, esc, nv@.len() as int),
            !found ==> op_idx == 0,
        decreases v@.len() - i,
    {
        let x = v[i];
        if !found && !esc && (x == 61 || x == 126 || x == 64) {
            op_idx = nv.len();
            found = true;
        }
        if !esc && x == 92 {
            esc = true;
        } else {
            let y = if esc {
                ContentReformat::from_escape(x)
            } else {
                x
            };
            assert(nv@.push(y) + unescape_at(v@, i + 1, false) =~= nv@ + unescape_at(v@, i as int, esc));
            nv.push(y);
            esc = false;
        }
        i = i + 1;
    }
    (nv, op_idx)
}

/// Renders a template: after an `@`, `p` stands for `path` and any other byte
/// is dropped.
pub fn render(r: &[u8], path: &[u8]) -> (out: Vec<u8>)
    ensures
        out@ == render_at(r@, 0, false, path@),
{
    let mut out: Vec<u8> = Vec::new();
    let mut after_at = false;
    let mut i: usize = 0;
    while i < r.len()
        invariant
            0 <= i <= r@.len(),
            out@ + render_at(r@, i as int, after_at, path@) == render_at(r@, 0, false, path@),
        decreases r@.len() - i,
    {
        let c = r[i];
        if c == 64 {
            after_at = true;
        } else if after_at {
            if c == 112 {
                assert(out@ + path@ + render_at(r@, i + 1, false, path@) =~= out@ + render_at(r@, i as int, true, path@));
                out.extend_from_slice(path);
            } else {
                assert(out@ + render_at(r@, i + 1, false, path@) =~= out@ + render_at(r@, i as int, true, path@));
            }
            after_at = false;
        } else {
            assert(out@.push(c) + render_at(r@, i + 1, false, path@) =~= out@ + render_at(r@, i as int, false, path@));
            out.push(c);
        }
        i = i + 1;
    }
    assert(out@ + render_at(r@, i as int, after_at, path@) =~= out@);
    out
}

/// Reads one configuration line into the current type and the rules.
fn read_line(cur: &mut u8, rules: &mut Vec<Vec<Replacer>>, v: &[u8])
    requires
        old(rules)@.len() == 256,
        forall|k: int, j: int| 0 <= k < 256 && 0 <= j < old(rules)@[k]@.len() ==> (#[trigger] old(rules)@[k]@[j]).shaped(),
    ensures
        final(rules)@.len() == 256,
        forall|k: int, j: int| 0 <= k < 256 && 0 <= j < final(rules)@[k]@.len() ==> (#[trigger] final(rules)@[k]@[j]).shaped(),
        (*final(cur), all_models(final(rules)@)) == config_step((*old(cur), all_models(old(rules)@)), v@),
{
    if v.len() == 0 || v[0] == 35 {
        return;
    }
    if v.len() > 1 && v[0] == 58 {
        *cur = v[1];
        return;
    }
    if *cur == 0 {
        return;
    }
    let (line, op_idx) = unescape_line(v);
    if op_idx == 0 {
        return;
    }
    let rep = Replacer { line, op_idx, matcher: None };
    let t = *cur as usize;
    let ghost before = all_models(rules@);
    let ghost old_group = rules@[t as int]@;
    assert(rep.model() == line_rule(v@)->0);
    rules[t].push(rep);
    assert(models(rules@[t as int]@) =~= models(old_group).push(rep.model()));
    assert(all_models(rules@) =~= before.update(t as int, before[t as int].push(line_rule(v@)->0)));
}

/// Rewriting the first `n` segments looks at those segments only.
proof fn lemma_apply_prefix(cr: &ContentReformat, types: Seq<u8>, path: Seq<u8>, a: Seq<Seq<u8>>, b: Seq<Seq<u8>>, n: int)
    requires
        n <= a.len() <= b.len(),
        forall|j: int| 0 <= j < a.len() ==> a[j] == b[j],
    ensures
        cr.apply_segments(types, path, a, n) == cr.apply_segments(types, path, b, n),
    decreases n,
{
    if n > 0 {
        lemma_apply_prefix(cr, types, path, a, b, n - 1);
    }
}

/// The models of a list of rules.
pub open spec fn models(rs: Seq<Replacer>) -> Seq<RuleModel> {
    rs.map_values(|r: Replacer| r.model())
}

/// The rewriting rules of each dictionary type.
pub struct ContentReformat {
    repl: Vec<Vec<Replacer>>,
    plain: Vec<Option<PlainSet>>,
}

impl ContentReformat {
    pub closed spec fn wf(&self) -> bool {
        &&& self.repl@.len() == 256
        &&& self.plain@.len() == 256
        &&& forall|t: int, j: int|
            0 <= t < 256 && 0 <= j < self.repl@[t]@.len() ==> (#[trigger] self.repl@[t]@[j]).wf()
        &&& forall|t: int|
            0 <= t < 256 ==> (#[trigger] self.plain@[t] is Some <==> plain_froms(models(self.repl@[t]@)).len() > 0)
        &&& forall|t: int|
            0 <= t < 256 ==> (#[trigger] self.plain@[t] matches Some(p) ==> p.patterns()
                == plain_froms(models(self.repl@[t]@)))
    }

    /// The rules of each dictionary type, indexed by the type byte.
    pub closed spec fn rules(&self) -> Seq<Seq<RuleModel>> {
        Seq::new(256, |t: int| models(self.repl@[t]@))
    }

    /// What `replace_all` makes of `hay` for dictionary type `t` and path `path`.
    pub open spec fn apply(&self, t: u8, path: Seq<u8>, hay: Seq<u8>) -> Seq<u8> {
        apply_rules(self.rules()[t as int], path, hay)
    }

    /// Reads a configuration file's contents. Fails with `My` when a regular
    /// expression rule is not UTF-8 text or does not compile, or when a
    /// dictionary type's plain patterns make no automaton.
    pub fn from_config_file(config: &[u8]) -> (r: Result<ContentReformat, DictError>)
        ensures
            r is Ok <==> rules_valid(config_rules(config@)),
            r matches Ok(cr) ==> cr.wf() && cr.rules() == config_rules(config@),
            r matches Err(e) ==> e is My,
    {
        let mut rules: Vec<Vec<Replacer>> = Vec::new();
        let mut t: usize = 0;
        while t < 256
            invariant
                0 <= t <= 256,
                rules@.len() == t,
                forall|k: int| 0 <= k < t ==> rules@[k]@.len() == 0,
            decreases 256 - t,
        {
            rules.push(Vec::new());
            t = t + 1;
        }
        let mut cur: u8 = 0;
        let len = config.len();
        let mut ls: usize = 0;
        let mut i: usize = 0;
        let ghost mut done: Seq<Seq<u8>> = Seq::empty();
        assert forall|k: int| 0 <= k < 256 implies models(rules@[k]@) =~= Seq::<RuleModel>::empty() by {}
        assert(all_models(rules@) =~= config_state(done).1);
        while i < len
            invariant
                len == config@.len(),
                ls <= i <= len,
                lines_from(config@, 0, 0) == done + lines_from(config@, ls as int, i as int),
                config_state(done) == (cur, all_models(rules@)),
                rules@.len() == 256,
                forall|k: int, j: int| 0 <= k < 256 && 0 <= j < rules@[k]@.len() ==> (#[trigger] rules@[k]@[j]).shaped(),
            decreases len - i,
        {
            if config[i] == 10 {
                let line = &config[ls..i];
                proof {
                    assert(done + lines_from(config@, ls as int, i as int) =~= done.push(line@)
                        + lines_from(config@, i + 1, i + 1));
                    assert(done.push(line@).drop_last() =~= done);
                }
                read_line(&mut cur, &mut rules, line);
                proof {
                    done = done.push(line@);
                }
                ls = i + 1;
            }
            i = i + 1;
        }
        if ls < len {
            let line = &config[ls..len];
            proof {
                assert(done.push(line@).drop_last() =~= done);
            }
            read_line(&mut cur, &mut rules, line);
            proof {
                done = done.push(line@);
            }
        }
        assert(done =~= lines_from(config@, 0, 0));
        ContentReformat::compile(rules)
    }

    /// Compiles the rules of each type: the regular expressions, and one
    /// automaton over each type's plain patterns.
    fn compile(rules: Vec<Vec<Replacer>>) -> (r: Result<ContentReformat, DictError>)
        requires
            rules@.len() == 256,
            forall|k: int, j: int| 0 <= k < 256 && 0 <= j < rules@[k]@.len() ==> (#[trigger] rules@[k]@[j]).shaped(),
        ensures
            r is Ok <==> rules_valid(all_models(rules@)),
            r matches Ok(cr) ==> cr.wf() && cr.rules() == all_models(rules@),
            r matches Err(e) ==> e is My,
    {
        let ghost all = all_models(rules@);
        let mut repl: Vec<Vec<Replacer>> = Vec::new();
        let mut plain: Vec<Option<PlainSet>> = Vec::new();
        let mut t: usize = 0;
        while t < 256
            invariant
                0 <= t <= 256,
                all == all_models(rules@),
                rules@.len() == 256,
                forall|k: int, j: int| 0 <= k < 256 && 0 <= j < rules@[k]@.len() ==> (#[trigger] rules@[k]@[j]).shaped(),
                repl@.len() == t,
                plain@.len() == t,
                forall|k: int| 0 <= k < t ==> models(#[trigger] repl@[k]@) == all[k],
                forall|k: int, j: int| 0 <= k < t && 0 <= j < repl@[k]@.len() ==> (#[trigger] repl@[k]@[j]).wf(),
                forall|k: int| 0 <= k < t ==> (#[trigger] plain@[k] is Some <==> plain_froms(models(repl@[k]@)).len() > 0),
                forall|k: int| 0 <= k < t ==> (#[trigger] plain@[k] matches Some(p) ==> p.patterns() == plain_froms(models(repl@[k]@))),
                forall|k: int, j: int| 0 <= k < t && 0 <= j < all[k].len() && all[k][j].0 == 126 ==> valid_utf8(all[k][j].1) && regex_compiles(decode_utf8(all[k][j].1)),
                forall|k: int| 0 <= k < t && plain_froms(all[k]).len() > 0 ==> ac_builds(plain_froms(all[k])),
            decreases 256 - t,
        {
            let group = &rules[t];
            let ghost gm = all[t as int];
            assert(gm == models(group@));
            let mut out: Vec<Replacer> = Vec::new();
            let mut froms: Vec<Vec<u8>> = Vec::new();
            let mut j: usize = 0;
            while j < group.len()
                invariant
                    gm == models(group@),
                    all == all_models(rules@),
                    rules@.len() == 256,
                    0 <= t < 256,
                    gm == all[t as int],
                    forall|j: int| 0 <= j < group@.len() ==> (#[trigger] group@[j]).shaped(),
                    0 <= j <= group@.len(),
                    out@.len() == j,
                    models(out@) =~= gm.subrange(0, j as int),
                    forall|k: int| 0 <= k < j ==> (#[trigger] out@[k]).wf(),
                    views(froms@) == plain_froms(gm.subrange(0, j as int)),
                    forall|k: int| 0 <= k < j && gm[k].0 == 126 ==> valid_utf8(gm[k].1) && regex_compiles(decode_utf8(gm[k].1)),
                decreases group@.len() - j,
            {
                let r = &group[j];
                let line = slice_to_vec(r.line.as_slice());
                let op_idx = r.op_idx;
                let pat = &line.as_slice()[0..op_idx];
                proof {
                    assert(gm[j as int] == r.model());
                    assert(pat@ == r.model().1);
                    assert(all[t as int][j as int] == gm[j as int]);
                }
                let matcher = if line[op_idx] == 126 {
                    match utf8_string(pat) {
                        None => {
                            return Err(DictError::My(String::from_str("a regular expression rule is not UTF-8")));
                        },
                        Some(src) => match Matcher::new(src) {
                            Ok(m) => Some(m),
                            Err(_) => {
                                return Err(DictError::My(String::from_str("a regular expression rule does not compile")));
                            },
                        },
                    }
                } else {
                    froms.push(slice_to_vec(pat));
                    None
                };
                let rep = Replacer { line, op_idx, matcher };
                proof {
                    assert(rep.model() == r.model());
                    assert(gm.subrange(0, j + 1).drop_last() =~= gm.subrange(0, j as int));
                    assert(views(froms@) =~= plain_froms(gm.subrange(0, j + 1)));
                }
                out.push(rep);
                j = j + 1;
            }
            assert(gm.subrange(0, j as int) =~= gm);
            let p = if froms.len() > 0 {
                match PlainSet::build(froms) {
                    Ok(p) => Some(p),
                    Err(_) => {
                        return Err(DictError::My(String::from_str("the plain patterns make no automaton")));
                    },
                }
            } else {
                None
            };
            repl.push(out);
            plain.push(p);
            t = t + 1;
        }
        let cr = ContentReformat { repl, plain };
        assert(cr.rules() =~= all);
        Ok(cr)
    }

    /// Rewrites one segment `haystack` of an entry of a dictionary of type
    /// `dict_format` stored at `dict_path`: the regular expression rules in
    /// order, then all plain rules in one pass.
    pub fn replace_all(&self, dict_format: u8, dict_path: &[u8], haystack: &[u8]) -> (r: Vec<u8>)
        requires
            self.wf(),
        ensures
            r@ == self.apply(dict_format, dict_path@, haystack@),
    {
        let rules = &self.repl[dict_format as usize];
        let ghost rs = models(rules@);
        assert(rs == self.rules()[dict_format as int]);
        if rules.len() == 0 {
            return slice_to_vec(haystack);
        }
        let mut hay = slice_to_vec(haystack);
        let mut to: Vec<Vec<u8>> = Vec::new();
        let mut i: usize = 0;
        while i < rules.len()
            invariant
                self.wf(),
                rules == &self.repl@[dict_format as int],
                rs == models(rules@),
                0 <= i <= rules@.len(),
                hay@ == regex_pass(rs.subrange(0, i as int), haystack@),
                views(to@) == plain_tos(rs.subrange(0, i as int), dict_path@),
            decreases rules@.len() - i,
        {
            let v = &rules[i];
            assert(v.wf());
            assert(rs.subrange(0, i + 1).drop_last() =~= rs.subrange(0, i as int));
            let ll = v.line.len();
            let op = v.line[v.op_idx];
            let repl = &v.line.as_slice()[v.op_idx + 1..ll];
            if op == 61 {
                to.push(slice_to_vec(repl));
            } else if op == 64 {
                to.push(render(repl, dict_path));
            } else {
                match &v.matcher {
                    Some(m) => {
                        hay = m.replace_all(hay.as_slice(), repl);
                    },
                    None => {},
                }
            }
            proof {
                assert(views(to@) =~= plain_tos(rs.subrange(0, i + 1), dict_path@));
            }
            i = i + 1;
        }
        assert(rs.subrange(0, i as int) =~= rs);
        proof {
            lemma_plain_lengths(rs, dict_path@);
        }
        match &self.plain[dict_format as usize] {
            Some(p) => p.replace_all(hay.as_slice(), &to),
            None => hay,
        }
    }

    /// The first `n` segments rewritten, each by the rules of its type, and
    /// joined.
    pub open spec fn apply_segments(&self, types: Seq<u8>, path: Seq<u8>, segs: Seq<Seq<u8>>, n: int) -> Seq<u8>
        decreases n,
    {
        if n <= 0 {
            Seq::empty()
        } else {
            self.apply_segments(types, path, segs, n - 1) + self.apply(types[n - 1], path, segs[n - 1])
        }
    }

    /// Rewrites an entry `payload` of a dictionary whose `sametypesequence` is
    /// `types`: its NUL-separated segments, each by the rules of its type
    /// character, joined; segments beyond the types are dropped.
    pub fn reformat_entry(&self, types: &[u8], dict_path: &[u8], payload: &[u8]) -> (r: Vec<u8>)
        requires
            self.wf(),
        ensures
            r@ == self.apply_segments(
                types@,
                dict_path@,
                segments_from(payload@, 0, 0),
                if types@.len() < segments_from(payload@, 0, 0).len() {
                    types@.len() as int
                } else {
                    segments_from(payload@, 0, 0).len() as int
                },
            ),
    {
        let ghost all = segments_from(payload@, 0, 0);
        let mut out: Vec<u8> = Vec::new();
        let mut k: usize = 0;
        let mut ls: usize = 0;
        let mut i: usize = 0;
        let len = payload.len();
        let ghost mut done: Seq<Seq<u8>> = Seq::empty();
        while i < len
            invariant
                self.wf(),
                len == payload@.len(),
                ls <= i <= len,
                all == segments_from(payload@, 0, 0),
                all == done + segments_from(payload@, ls as int, i as int),
                k == done.len(),
                k <= i,
                out@ == self.apply_segments(types@, dict_path@, done, if k < types@.len() { k as int } else { types@.len() as int }),
            decreases len - i,
        {
            if payload[i] == 0 {
                let seg = &payload[ls..i];
                proof {
                    assert(done + segments_from(payload@, ls as int, i as int) =~= done.push(seg@) + segments_from(payload@, i + 1, i + 1));
                    lemma_apply_prefix(self, types@, dict_path@, done, done.push(seg@), if k < types@.len() { k as int } else { types@.len() as int });
                }
                if k < types.len() {
                    let part = self.replace_all(types[k], dict_path, seg);
                    proof {
                        lemma_apply_prefix(self, types@, dict_path@, done, done.push(seg@), k as int);
                    }
                    out.extend_from_slice(part.as_slice());
                }
                proof {
                    done = done.push(seg@);
                }
                k = k + 1;
                ls = i + 1;
            }
            i = i + 1;
        }
        let seg = &payload[ls..len];
        proof {
            assert(done + segments_from(payload@, ls as int, i as int) =~= done.push(seg@));
            lemma_apply_prefix(self, types@, dict_path@, done, done.push(seg@), if k < types@.len() { k as int } else { types@.len() as int });
        }
        if k < types.len() {
            let part = self.replace_all(types[k], dict_path, seg);
            proof {
                lemma_apply_prefix(self, types@, dict_path@, done, done.push(seg@), k as int);
            }
            out.extend_from_slice(part.as_slice());
        }
        proof {
            done = done.push(seg@);
            assert(done =~= all);
        }
        out
    }

    /// The byte that the escape `\c` stands for.
    pub fn from_escape(c: u8) -> (r: u8)
        ensures
            r == escaped(c),
    {
        match c {
            116 => 9,
            110 => 10,
            114 => 13,
            _ => c,
        }
    }
}

} // verus!

verus! {

/// A dictionary type without rules keeps every haystack as it is.
pub proof fn lemma_no_rules_keeps(cr: &ContentReformat, t: u8, path: Seq<u8>, hay: Seq<u8>)
    requires
        cr.rules()[t as int].len() == 0,
    ensures
        cr.apply(t, path, hay) == hay,
{
}

/// Rules apply in their order of kind: with a regular expression rule followed
/// by a plain `=` rule, the regular expression rewrites the haystack first and
/// the plain rule then rewrites that result.
pub proof fn lemma_regex_then_plain(cr: &ContentReformat, t: u8, path: Seq<u8>, hay: Seq<u8>)
    requires
        cr.rules()[t as int].len() == 2,
        cr.rules()[t as int][0].0 == 126,
        cr.rules()[t as int][1].0 == 61,
    ensures
        cr.apply(t, path, hay) == ac_rewrite(
            seq![cr.rules()[t as int][1].1],
            regex_rewrite(decode_utf8(cr.rules()[t as int][0].1), hay, cr.rules()[t as int][0].2),
            seq![cr.rules()[t as int][1].2],
        ),
{
    let rs = cr.rules()[t as int];
    let r1 = rs.drop_last();
    assert(r1.drop_last().len() == 0);
    assert(r1.last() == rs[0]);
    assert(plain_froms(r1.drop_last()) =~= Seq::<Seq<u8>>::empty());
    assert(plain_tos(r1.drop_last(), path) =~= Seq::<Seq<u8>>::empty());
    assert(regex_pass(r1.drop_last(), hay) == hay);
    assert(plain_froms(r1) =~= Seq::<Seq<u8>>::empty());
    assert(plain_tos(r1, path) =~= Seq::<Seq<u8>>::empty());
    assert(regex_pass(r1, hay) == regex_rewrite(decode_utf8(rs[0].1), hay, rs[0].2));
    assert(plain_froms(rs) =~= seq![rs[1].1]);
    assert(plain_tos(rs, path) =~= seq![rs[1].2]);
}

} // verus!

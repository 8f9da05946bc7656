use vstd::prelude::*;

pub mod parse;

use crate::parse::{
    chars_of, expand, expand_value, is_single_quoted, lemma_expand_without_references, lemma_plain_entry, parse_line,
    parse_spec, plain_value, single_quoted, valid_key, ParseErrorKind,
};

verus! {

/// A key is kept when its text begins with the prefix.
pub open spec fn has_prefix(k: Seq<char>, p: Seq<char>) -> bool {
    p.len() <= k.len() && k.subrange(0, p.len() as int) == p
}

/// The text of each string.
pub open spec fn views(ls: Seq<String>) -> Seq<Seq<char>> {
    ls.map_values(|l: String| l@)
}

/// The key and value text of each entry.
pub open spec fn pair_views(s: Seq<(String, String)>) -> Seq<(Seq<char>, Seq<char>)> {
    s.map_values(|e: (String, String)| (e.0@, e.1@))
}

/// The keys that a sequence of entries names.
pub open spec fn keys_of(s: Seq<(Seq<char>, Seq<char>)>) -> Set<Seq<char>> {
    Set::new(|k: Seq<char>| exists|j: int| 0 <= j < s.len() && (#[trigger] s[j]).0 == k)
}

/// The entries that a merge sets, in order: the key begins with `p`, is not
/// already defined, and was not set by an earlier entry (the first one wins).
pub open spec fn plan(s: Seq<(Seq<char>, Seq<char>)>, p: Seq<char>, d: Set<Seq<char>>) -> Seq<(Seq<char>, Seq<char>)>
    decreases s.len(),
{
    if s.len() == 0 {
        Seq::empty()
    } else {
        let prev = plan(s.drop_last(), p, d);
        let k = s.last().0;
        if has_prefix(k, p) && !d.contains(k) && !keys_of(prev).contains(k) {
            prev.push(s.last())
        } else {
            prev
        }
    }
}

fn starts_with(s: &str, p: &str) -> (r: bool)
    ensures
        r == has_prefix(s@, p@),
{
    let a = chars_of(s);
    let b = chars_of(p);
    if b.len() > a.len() {
        return false;
    }
    let mut i: usize = 0;
    while i < b.len()
        invariant
            b@.len() <= a@.len(),
            i <= b@.len(),
            a@ == s@,
            b@ == p@,
            forall|j: int| 0 <= j < i ==> a@[j] == b@[j],
        decreases b@.len() - i,
    {
        if a[i] != b[i] {
            assert(a@.subrange(0, b@.len() as int)[i as int] != b@[i as int]);
            return false;
        }
        i = i + 1;
    }
    assert(a@.subrange(0, b@.len() as int) =~= b@);
    true
}

fn clone_entry(e: &(String, String)) -> (r: (String, String))
    ensures
        r == *e,
{
    (e.0.clone(), e.1.clone())
}

fn contains_key(s: &Vec<(String, String)>, k: &String) -> (r: bool)
    ensures
        r == keys_of(pair_views(s@)).contains(k@),
{
    let mut i: usize = 0;
    while i < s.len()
        invariant
            i <= s@.len(),
            forall|j: int| 0 <= j < i ==> (#[trigger] s@[j]).0@ != k@,
        decreases s@.len() - i,
    {
        if s[i].0 == *k {
            assert(pair_views(s@)[i as int].0 == k@);
            return true;
        }
        i = i + 1;
    }
    false
}

/// Decides what a merge into an environment sets: the entries, in file
/// order, whose key begins with `prefix`, is not defined in `env`,
/// and was not set by an earlier entry. Defined values are never overwritten.
pub fn merge_plan(entries: &Vec<(String, String)>, prefix: &str, env: &Vec<(String, String)>) -> (r: Vec<(String, String)>)
    ensures
        pair_views(r@) == plan(pair_views(entries@), prefix@, keys_of(pair_views(env@))),
{
    let mut r: Vec<(String, String)> = Vec::new();
    let mut i: usize = 0;
    while i < entries.len()
        invariant
            i <= entries@.len(),
            pair_views(r@) == plan(pair_views(entries@).subrange(0, i as int), prefix@, keys_of(pair_views(env@))),
        decreases entries@.len() - i,
    {
        let ghost es = pair_views(entries@);
        proof {
            assert(es.subrange(0, i + 1).drop_last() =~= es.subrange(0, i as int));
            assert(es.subrange(0, i + 1).last() == es[i as int]);
        }
        let e = &entries[i];
        if starts_with(e.0.as_str(), prefix) && !contains_key(env, &e.0) && !contains_key(&r, &e.0) {
            let ghost before = r@;
            r.push(clone_entry(e));
            proof {
                assert(pair_views(r@) =~= pair_views(before).push(es[i as int]));
            }
        }
        i = i + 1;
    }
    assert(pair_views(entries@).subrange(0, entries@.len() as int) =~= pair_views(entries@));
    r
}

proof fn lemma_plan_keys(s: Seq<(Seq<char>, Seq<char>)>, p: Seq<char>, d: Set<Seq<char>>)
    ensures
        s.len() > 0 ==> keys_of(plan(s.drop_last(), p, d)).subset_of(keys_of(plan(s, p, d))),
        s.len() > 0 && has_prefix(s.last().0, p) ==> (d.contains(s.last().0)
            || keys_of(plan(s, p, d)).contains(s.last().0)),
{
    if s.len() > 0 {
        let prev = plan(s.drop_last(), p, d);
        let cur = plan(s, p, d);
        assert forall|k: Seq<char>| keys_of(prev).contains(k) implies keys_of(cur).contains(k) by {
            let j = choose|j: int| 0 <= j < prev.len() && (#[trigger] prev[j]).0 == k;
            assert(cur[j] == prev[j]);
        }
        let k = s.last().0;
        if has_prefix(k, p) && !d.contains(k) {
            if keys_of(prev).contains(k) {
            } else {
                assert(cur[cur.len() - 1] == s.last());
            }
        }
    }
}

proof fn lemma_plan_empty(s: Seq<(Seq<char>, Seq<char>)>, p: Seq<char>, d: Set<Seq<char>>, d2: Set<Seq<char>>)
    requires
        d.subset_of(d2),
        keys_of(plan(s, p, d)).subset_of(d2),
    ensures
        plan(s, p, d2).len() == 0,
    decreases s.len(),
{
    if s.len() > 0 {
        lemma_plan_keys(s, p, d);
        lemma_plan_empty(s.drop_last(), p, d, d2);
        assert(keys_of(plan(s.drop_last(), p, d2)) =~= Set::empty());
    }
}

/// Merging is idempotent: once the names that a merge set are defined, a
/// second merge of the same entries with the same prefix sets nothing.
pub proof fn lemma_merge_idempotent(s: Seq<(Seq<char>, Seq<char>)>, p: Seq<char>, d: Set<Seq<char>>)
    ensures
        plan(s, p, d.union(keys_of(plan(s, p, d)))).len() == 0,
{
    lemma_plan_empty(s, p, d, d.union(keys_of(plan(s, p, d))));
}

/// The value of an entry read from `line`: taken as written when single
/// quoted, else with its references resolved against the entries before it
/// and then the environment.
pub open spec fn resolved(line: Seq<char>, raw: Seq<char>, prev: Seq<(Seq<char>, Seq<char>)>, env: Seq<(Seq<char>, Seq<char>)>) -> Seq<char> {
    if single_quoted(line) { raw } else { expand(raw, 0, Seq::empty(), prev, env) }
}

/// The entries of the lines, in order, or the error of the first malformed line.
pub open spec fn parse_all(ls: Seq<Seq<char>>, env: Seq<(Seq<char>, Seq<char>)>) -> Result<Seq<(Seq<char>, Seq<char>)>, ParseErrorKind>
    decreases ls.len(),
{
    if ls.len() == 0 {
        Ok(Seq::empty())
    } else {
        match parse_all(ls.drop_last(), env) {
            Err(e) => Err(e),
            Ok(prev) => match parse_spec(ls.last()) {
                Err(e) => Err(e),
                Ok(None) => Ok(prev),
                Ok(Some(p)) => Ok(prev.push((p.0, resolved(ls.last(), p.1, prev, env)))),
            },
        }
    }
}

/// A file of one `KEY=VALUE` line, with a well-formed key and a plain value
/// that refers to nothing, gives exactly that key and value.
pub proof fn lemma_plain_file(k: Seq<char>, v: Seq<char>, env: Seq<(Seq<char>, Seq<char>)>)
    requires
        valid_key(k),
        plain_value(v),
        forall|j: int| 0 <= j < v.len() ==> #[trigger] v[j] != '$',
    ensures
        parse_all(seq![k + seq!['='] + v], env) == Ok::<_, ParseErrorKind>(seq![(k, v)]),
{
    let ls = seq![k + seq!['='] + v];
    lemma_plain_entry(k, v);
    lemma_expand_without_references(v, Seq::empty(), env);
    assert(ls.drop_last() =~= Seq::<Seq<char>>::empty());
    assert(parse_all(ls.drop_last(), env) == Ok::<_, ParseErrorKind>(Seq::<(Seq<char>, Seq<char>)>::empty()));
    assert(Seq::<(Seq<char>, Seq<char>)>::empty().push((k, v)) =~= seq![(k, v)]);
}

proof fn lemma_err_extends(ls: Seq<Seq<char>>, env: Seq<(Seq<char>, Seq<char>)>, i: int, e: ParseErrorKind)
    requires
        0 <= i <= ls.len(),
        parse_all(ls.subrange(0, i), env) == Err::<Seq<(Seq<char>, Seq<char>)>, ParseErrorKind>(e),
    ensures
        parse_all(ls, env) == Err::<Seq<(Seq<char>, Seq<char>)>, ParseErrorKind>(e),
    decreases ls.len(),
{
    if ls.len() == i {
        assert(ls.subrange(0, i) =~= ls);
    } else {
        assert(ls.drop_last().subrange(0, i) =~= ls.subrange(0, i));
        lemma_err_extends(ls.drop_last(), env, i, e);
    }
}

/// A malformed line: why, its text, and its index among the lines.
pub struct LineError {
    pub kind: ParseErrorKind,
    pub line: String,
    pub index: usize,
}

/// The mapping that a sequence of entries builds when each entry is
/// inserted in turn: a later entry with the same key overwrites an earlier one.
pub open spec fn map_of(s: Seq<(Seq<char>, Seq<char>)>) -> Map<Seq<char>, Seq<char>>
    decreases s.len(),
{
    if s.len() == 0 {
        Map::empty()
    } else {
        map_of(s.drop_last()).insert(s.last().0, s.last().1)
    }
}

/// No key occurs twice.
pub open spec fn unique_keys(s: Seq<(Seq<char>, Seq<char>)>) -> bool {
    forall|i: int, j: int| 0 <= i < j < s.len() ==> (#[trigger] s[i]).0 != (#[trigger] s[j]).0
}

proof fn lemma_map_of_dom(s: Seq<(Seq<char>, Seq<char>)>)
    ensures
        map_of(s).dom() == keys_of(s),
    decreases s.len(),
{
    if s.len() > 0 {
        lemma_map_of_dom(s.drop_last());
        assert forall|k: Seq<char>| keys_of(s).contains(k) implies map_of(s).dom().contains(k) by {
            let j = choose|j: int| 0 <= j < s.len() && (#[trigger] s[j]).0 == k;
            if j < s.len() - 1 {
                assert(s.drop_last()[j] == s[j]);
            }
        }
        assert forall|k: Seq<char>| map_of(s).dom().contains(k) implies keys_of(s).contains(k) by {
            if k != s.last().0 {
                let j = choose|j: int| 0 <= j < s.len() - 1 && (#[trigger] s.drop_last()[j]).0 == k;
                assert(s[j] == s.drop_last()[j]);
            } else {
                assert(s[s.len() - 1].0 == k);
            }
        }
        assert(map_of(s).dom() =~= keys_of(s));
    } else {
        assert(map_of(s).dom() =~= keys_of(s));
    }
}

proof fn lemma_map_of_update(s: Seq<(Seq<char>, Seq<char>)>, i: int, e: (Seq<char>, Seq<char>))
    requires
        unique_keys(s),
        0 <= i < s.len(),
        s[i].0 == e.0,
    ensures
        map_of(s.update(i, e)) == map_of(s).insert(e.0, e.1),
        unique_keys(s.update(i, e)),
    decreases s.len(),
{
    let u = s.update(i, e);
    if i == s.len() - 1 {
        assert(u.drop_last() =~= s.drop_last());
        assert(map_of(u) =~= map_of(s).insert(e.0, e.1));
    } else {
        lemma_map_of_update(s.drop_last(), i, e);
        assert(u.drop_last() =~= s.drop_last().update(i, e));
        assert(s.last().0 != e.0) by {
            assert(s[i].0 != s[s.len() - 1].0);
        }
        assert(map_of(u) =~= map_of(s).insert(e.0, e.1));
    }
}

/// The mapping that collecting the entries whose key begins with `p` builds.
pub open spec fn collected(s: Seq<(Seq<char>, Seq<char>)>, p: Seq<char>) -> Map<Seq<char>, Seq<char>>
    decreases s.len(),
{
    if s.len() == 0 {
        Map::empty()
    } else if has_prefix(s.last().0, p) {
        collected(s.drop_last(), p).insert(s.last().0, s.last().1)
    } else {
        collected(s.drop_last(), p)
    }
}

/// The keys that begin with `p`.
pub open spec fn prefixed(p: Seq<char>) -> Set<Seq<char>> {
    Set::new(|k: Seq<char>| has_prefix(k, p))
}

/// Collecting under a prefix gives the mapping of all entries restricted to
/// the keys that begin with the prefix; under the empty prefix, all of it.
pub proof fn lemma_collect_prefix(s: Seq<(Seq<char>, Seq<char>)>, p: Seq<char>)
    ensures
        collected(s, p) == map_of(s).restrict(prefixed(p)),
        p.len() == 0 ==> collected(s, p) == map_of(s),
    decreases s.len(),
{
    if s.len() > 0 {
        lemma_collect_prefix(s.drop_last(), p);
        assert(collected(s, p) =~= map_of(s).restrict(prefixed(p)));
    } else {
        assert(collected(s, p) =~= map_of(s).restrict(prefixed(p)));
    }
    if p.len() == 0 {
        assert forall|k: Seq<char>| #[trigger] prefixed(p).contains(k) <==> true by {
            assert(k.subrange(0, 0) =~= p);
        }
        assert(map_of(s).restrict(prefixed(p)) =~= map_of(s));
    }
}

fn index_of_key(s: &Vec<(String, String)>, k: &String) -> (r: Option<usize>)
    ensures
        match r {
            Some(i) => i < s@.len() && s@[i as int].0@ == k@,
            None => !keys_of(pair_views(s@)).contains(k@),
        },
{
    let mut i: usize = 0;
    while i < s.len()
        invariant
            i <= s@.len(),
            forall|j: int| 0 <= j < i ==> (#[trigger] s@[j]).0@ != k@,
        decreases s@.len() - i,
    {
        if s[i].0 == *k {
            return Some(i);
        }
        i = i + 1;
    }
    proof {
        assert forall|j: int| 0 <= j < s@.len() implies (#[trigger] pair_views(s@)[j]).0 != k@ by {
            assert(s@[j].0@ != k@);
        }
    }
    None
}

/// The resolved entries of one configuration file, in file order.
pub struct Iter {
    pub entries: Vec<(String, String)>,
}

impl Iter {
    /// Parses the lines of a file in order. Blank and comment lines give no
    /// entry; the first malformed line stops the parse with its error.
    pub fn new(lines: &Vec<String>, env: &Vec<(String, String)>) -> (r: Result<Iter, LineError>)
        ensures
            match r {
                Ok(it) => parse_all(views(lines@), pair_views(env@)) == Ok::<_, ParseErrorKind>(pair_views(it.entries@)),
                Err(e) => parse_all(views(lines@), pair_views(env@)) == Err::<Seq<(Seq<char>, Seq<char>)>, ParseErrorKind>(e.kind)
                    && e.index < lines@.len() && e.line@ == lines@[e.index as int]@,
            },
    {
        let mut entries: Vec<(String, String)> = Vec::new();
        let mut i: usize = 0;
        proof {
            assert(pair_views(entries@) =~= Seq::empty());
            assert(views(lines@).subrange(0, 0) =~= Seq::empty());
        }
        while i < lines.len()
            invariant
                i <= lines@.len(),
                parse_all(views(lines@).subrange(0, i as int), pair_views(env@)) == Ok::<_, ParseErrorKind>(pair_views(entries@)),
            decreases lines@.len() - i,
        {
            let ghost ls = views(lines@);
            proof {
                assert(ls.subrange(0, i + 1).drop_last() =~= ls.subrange(0, i as int));
                assert(ls.subrange(0, i + 1).last() == lines@[i as int]@);
            }
            match parse_line(lines[i].as_str()) {
                Err(kind) => {
                    proof {
                        lemma_err_extends(ls, pair_views(env@), i + 1, kind);
                    }
                    return Err(LineError { kind, line: lines[i].clone(), index: i });
                },
                Ok(None) => {},
                Ok(Some((k, raw))) => {
                    let ghost before = entries@;
                    let v = if is_single_quoted(lines[i].as_str()) {
                        raw
                    } else {
                        expand_value(raw.as_str(), &entries, env)
                    };
                    entries.push((k, v));
                    proof {
                        assert(pair_views(entries@) =~= pair_views(before).push((k@, v@)));
                    }
                },
            }
            i = i + 1;
        }
        proof {
            assert(views(lines@).subrange(0, lines@.len() as int) =~= views(lines@));
        }
        Ok(Iter { entries })
    }

    /// Collects the entries whose key begins with `prefix` into a mapping with
    /// one entry per key: a later entry overwrites the value of an earlier one.
    pub fn get_vars_base(&self, prefix: &str) -> (r: Vec<(String, String)>)
        ensures
            unique_keys(pair_views(r@)),
            map_of(pair_views(r@)) == collected(pair_views(self.entries@), prefix@),
    {
        let mut r: Vec<(String, String)> = Vec::new();
        let mut i: usize = 0;
        proof {
            assert(pair_views(self.entries@).subrange(0, 0) =~= Seq::empty());
        }
        while i < self.entries.len()
            invariant
                i <= self.entries@.len(),
                unique_keys(pair_views(r@)),
                map_of(pair_views(r@)) == collected(pair_views(self.entries@).subrange(0, i as int), prefix@),
            decreases self.entries@.len() - i,
        {
            let ghost es = pair_views(self.entries@);
            proof {
                assert(es.subrange(0, i + 1).drop_last() =~= es.subrange(0, i as int));
                assert(es.subrange(0, i + 1).last() == es[i as int]);
            }
            let e = &self.entries[i];
            if starts_with(e.0.as_str(), prefix) {
                let ghost before = pair_views(r@);
                match index_of_key(&r, &e.0) {
                    Some(j) => {
                        r.set(j, clone_entry(e));
                        proof {
                            assert(pair_views(r@) =~= before.update(j as int, es[i as int]));
                            lemma_map_of_update(before, j as int, es[i as int]);
                        }
                    },
                    None => {
                        r.push(clone_entry(e));
                        proof {
                            let after = pair_views(r@);
                            assert(after =~= before.push(es[i as int]));
                            assert(after.drop_last() =~= before);
                            assert forall|a: int, b: int| 0 <= a < b < after.len() implies
                                (#[trigger] after[a]).0 != (#[trigger] after[b]).0 by {
                                if b == after.len() - 1 {
                                    assert(after[a] == before[a]);
                                } else {
                                    assert(after[a] == before[a] && after[b] == before[b]);
                                }
                            }
                        }
                    },
                }
            }
            i = i + 1;
        }
        proof {
            assert(pair_views(self.entries@).subrange(0, self.entries@.len() as int) =~= pair_views(self.entries@));
        }
        r
    }

    /// The mapping of the keys that begin with `prefix`.
    pub fn get_vars_with_prefix(&self, prefix: &str) -> (r: Vec<(String, String)>)
        ensures
            unique_keys(pair_views(r@)),
            map_of(pair_views(r@)) == collected(pair_views(self.entries@), prefix@),
    {
        self.get_vars_base(prefix)
    }

    /// The mapping of every key.
    pub fn get_vars(&self) -> (r: Vec<(String, String)>)
        ensures
            unique_keys(pair_views(r@)),
            map_of(pair_views(r@)) == collected(pair_views(self.entries@), ""@),
    {
        self.get_vars_base("")
    }
}

/// Lines of a file read one entry at a time, with the entries read so far
/// as the cache that later references resolve against.
pub struct Reader {
    pub lines: Vec<String>,
    pub pos: usize,
    pub cache: Vec<(String, String)>,
}

/// Every line from `a` up to `b` is blank or a comment.
pub open spec fn skipped(ls: Seq<String>, a: int, b: int) -> bool {
    forall|j: int| a <= j < b ==> parse_spec(#[trigger] ls[j]@) == Ok::<Option<(Seq<char>, Seq<char>)>, ParseErrorKind>(None)
}

impl Reader {
    /// A reader at the first line, with an empty cache.
    pub fn new(lines: Vec<String>) -> (r: Reader)
        ensures
            r.lines@ == lines@,
            r.pos == 0,
            r.cache@.len() == 0,
    {
        Reader { lines, pos: 0, cache: Vec::new() }
    }

    /// The next entry: blank and comment lines are passed over; a malformed
    /// line gives its error; at the end, `None`. An entry joins the cache.
    pub fn next_entry(&mut self, env: &Vec<(String, String)>) -> (r: Option<Result<(String, String), LineError>>)
        ensures
            final(self).lines == old(self).lines,
            old(self).pos <= final(self).pos,
            old(self).pos >= old(self).lines@.len() ==> r is None && *final(self) == *old(self),
            r is Some ==> old(self).pos < final(self).pos,
            skipped(old(self).lines@, old(self).pos as int, final(self).pos - 1),
            match r {
                None => final(self).pos == (if old(self).pos >= old(self).lines@.len() { old(self).pos as int } else { old(self).lines@.len() as int })
                    && skipped(old(self).lines@, old(self).pos as int, final(self).pos as int)
                    && final(self).cache == old(self).cache,
                Some(Err(e)) => e.index + 1 == final(self).pos && old(self).pos <= e.index && final(self).pos <= old(self).lines@.len()
                    && e.line@ == old(self).lines@[e.index as int]@
                    && parse_spec(e.line@) == Err::<Option<(Seq<char>, Seq<char>)>, ParseErrorKind>(e.kind)
                    && final(self).cache == old(self).cache,
                Some(Ok((k, v))) => 0 < final(self).pos <= old(self).lines@.len()
                    && (match parse_spec(old(self).lines@[final(self).pos - 1]@) {
                        Ok(Some((k2, raw))) => k2 == k@
                            && v@ == resolved(old(self).lines@[final(self).pos - 1]@, raw, pair_views(old(self).cache@), pair_views(env@))
                            && pair_views(final(self).cache@) == pair_views(old(self).cache@).push((k@, v@)),
                        _ => false,
                    }),
            },
    {
        let ghost p0 = self.pos as int;
        if self.pos >= self.lines.len() {
            return None;
        }
        while self.pos < self.lines.len()
            invariant
                self.lines == old(self).lines,
                self.cache == old(self).cache,
                p0 == old(self).pos,
                p0 <= self.pos <= self.lines@.len(),
                skipped(self.lines@, p0, self.pos as int),
            decreases self.lines@.len() - self.pos,
        {
            let i = self.pos;
            self.pos = i + 1;
            match parse_line(self.lines[i].as_str()) {
                Err(kind) => {
                    return Some(Err(LineError { kind, line: self.lines[i].clone(), index: i }));
                },
                Ok(None) => {},
                Ok(Some((k, raw))) => {
                    let v = if is_single_quoted(self.lines[i].as_str()) {
                        raw
                    } else {
                        expand_value(raw.as_str(), &self.cache, env)
                    };
                    let ghost before = self.cache@;
                    let e = (k, v);
                    self.cache.push(clone_entry(&e));
                    proof {
                        assert(pair_views(self.cache@) =~= pair_views(before).push((e.0@, e.1@)));
                    }
                    return Some(Ok(e));
                },
            }
        }
        None
    }
}

/// What a directory holds under the name searched for: nothing (or no
/// regular file), a file with these lines, or a file that could not be read.
pub enum Probe {
    Absent,
    Present(Vec<String>),
    Unreadable(String),
}

/// Why a load failed.
pub enum Error {
    LineParse(LineError),
    Io(String),
    NotFound,
}

/// Every probe before `i` found nothing.
pub open spec fn absent_before(ps: Seq<Probe>, i: int) -> bool {
    forall|j: int| 0 <= j < i ==> #[trigger] ps[j] is Absent
}

/// Searches the probes of a directory and its ancestors, nearest first: the
/// first one that holds a file decides. Reaching the last (the root) with
/// nothing found gives `NotFound`; a file that could not be read gives `Io`.
pub fn find(levels: &Vec<Probe>) -> (r: Result<usize, Error>)
    ensures
        match r {
            Ok(i) => i < levels@.len() && levels@[i as int] is Present && absent_before(levels@, i as int),
            Err(Error::Io(m)) => exists|i: int| 0 <= i < levels@.len() && absent_before(levels@, i)
                && levels@[i] == Probe::Unreadable(m),
            Err(Error::NotFound) => absent_before(levels@, levels@.len() as int),
            Err(Error::LineParse(_)) => false,
        },
{
    let mut i: usize = 0;
    while i < levels.len()
        invariant
            i <= levels@.len(),
            absent_before(levels@, i as int),
        decreases levels@.len() - i,
    {
        match &levels[i] {
            Probe::Absent => {},
            Probe::Present(_) => {
                return Ok(i);
            },
            Probe::Unreadable(m) => {
                let m2 = m.clone();
                assert(levels@[i as int] == Probe::Unreadable(m2));
                return Err(Error::Io(m2));
            },
        }
        i = i + 1;
    }
    Err(Error::NotFound)
}

/// The lines held at a probe that found a file.
pub open spec fn lines_at(ps: Seq<Probe>, i: int) -> Seq<String> {
    match ps[i] {
        Probe::Present(ls) => ls@,
        _ => Seq::empty(),
    }
}

/// Finds the nearest file among `levels`, parses it, and decides what a
/// merge into the environment `env` sets: the entries whose key begins with
/// `prefix`, first occurrence first, never a name `env` defines. References
/// in values resolve against earlier entries, then `env`. Returns the index of the level where the file was found.
pub fn from_filename_with_prefix(levels: &Vec<Probe>, prefix: &str, env: &Vec<(String, String)>) -> (r: Result<(usize, Vec<(String, String)>), Error>)
    ensures
        match r {
            Ok((i, set)) => i < levels@.len() && levels@[i as int] is Present && absent_before(levels@, i as int)
                && (match parse_all(views(lines_at(levels@, i as int)), pair_views(env@)) {
                    Ok(es) => pair_views(set@) == plan(es, prefix@, keys_of(pair_views(env@))),
                    Err(_) => false,
                }),
            Err(Error::LineParse(e)) => exists|i: int| 0 <= i < levels@.len() && levels@[i] is Present
                && absent_before(levels@, i)
                && parse_all(views(lines_at(levels@, i)), pair_views(env@)) == Err::<Seq<(Seq<char>, Seq<char>)>, ParseErrorKind>(e.kind)
                && e.index < lines_at(levels@, i).len() && e.line@ == lines_at(levels@, i)[e.index as int]@,
            Err(Error::Io(m)) => exists|i: int| 0 <= i < levels@.len() && absent_before(levels@, i)
                && levels@[i] == Probe::Unreadable(m),
            Err(Error::NotFound) => absent_before(levels@, levels@.len() as int),
        },
{
    let i = match find(levels) {
        Ok(i) => i,
        Err(e) => {
            return Err(e);
        },
    };
    match &levels[i] {
        Probe::Present(lines) => {
            assert(lines_at(levels@, i as int) == lines@);
            match Iter::new(lines, env) {
                Ok(it) => {
                    let set = merge_plan(&it.entries, prefix, env);
                    Ok((i, set))
                },
                Err(e) => Err(Error::LineParse(e)),
            }
        },
        _ => Err(Error::NotFound),
    }
}

/// `from_filename_with_prefix` with the empty prefix: every key may be set.
pub fn from_filename(levels: &Vec<Probe>, env: &Vec<(String, String)>) -> (r: Result<(usize, Vec<(String, String)>), Error>)
    ensures
        match r {
            Ok((i, set)) => i < levels@.len() && levels@[i as int] is Present && absent_before(levels@, i as int)
                && (match parse_all(views(lines_at(levels@, i as int)), pair_views(env@)) {
                    Ok(es) => pair_views(set@) == plan(es, ""@, keys_of(pair_views(env@))),
                    Err(_) => false,
                }),
            Err(Error::NotFound) => absent_before(levels@, levels@.len() as int),
            Err(Error::LineParse(e)) => exists|i: int| 0 <= i < levels@.len() && levels@[i] is Present
                && absent_before(levels@, i)
                && parse_all(views(lines_at(levels@, i)), pair_views(env@)) == Err::<Seq<(Seq<char>, Seq<char>)>, ParseErrorKind>(e.kind)
                && e.index < lines_at(levels@, i).len() && e.line@ == lines_at(levels@, i)[e.index as int]@,
            Err(Error::Io(m)) => exists|i: int| 0 <= i < levels@.len() && absent_before(levels@, i)
                && levels@[i] == Probe::Unreadable(m),
        },
{
    from_filename_with_prefix(levels, "", env)
}

/// `from_filename_with_prefix` on the probes made for the default file name.
pub fn dotenv_with_prefix(levels: &Vec<Probe>, prefix: &str, env: &Vec<(String, String)>) -> (r: Result<(usize, Vec<(String, String)>), Error>)
    ensures
        match r {
            Ok((i, set)) => i < levels@.len() && levels@[i as int] is Present && absent_before(levels@, i as int)
                && (match parse_all(views(lines_at(levels@, i as int)), pair_views(env@)) {
                    Ok(es) => pair_views(set@) == plan(es, prefix@, keys_of(pair_views(env@))),
                    Err(_) => false,
                }),
            Err(Error::NotFound) => absent_before(levels@, levels@.len() as int),
            Err(Error::LineParse(e)) => exists|i: int| 0 <= i < levels@.len() && levels@[i] is Present
                && absent_before(levels@, i)
                && parse_all(views(lines_at(levels@, i)), pair_views(env@)) == Err::<Seq<(Seq<char>, Seq<char>)>, ParseErrorKind>(e.kind)
                && e.index < lines_at(levels@, i).len() && e.line@ == lines_at(levels@, i)[e.index as int]@,
            Err(Error::Io(m)) => exists|i: int| 0 <= i < levels@.len() && absent_before(levels@, i)
                && levels@[i] == Probe::Unreadable(m),
        },
{
    from_filename_with_prefix(levels, prefix, env)
}

/// `from_filename` on the probes made for the default file name.
pub fn dotenv(levels: &Vec<Probe>, env: &Vec<(String, String)>) -> (r: Result<(usize, Vec<(String, String)>), Error>)
    ensures
        match r {
            Ok((i, set)) => i < levels@.len() && levels@[i as int] is Present && absent_before(levels@, i as int)
                && (match parse_all(views(lines_at(levels@, i as int)), pair_views(env@)) {
                    Ok(es) => pair_views(set@) == plan(es, ""@, keys_of(pair_views(env@))),
                    Err(_) => false,
                }),
            Err(Error::NotFound) => absent_before(levels@, levels@.len() as int),
            Err(Error::LineParse(e)) => exists|i: int| 0 <= i < levels@.len() && levels@[i] is Present
                && absent_before(levels@, i)
                && parse_all(views(lines_at(levels@, i)), pair_views(env@)) == Err::<Seq<(Seq<char>, Seq<char>)>, ParseErrorKind>(e.kind)
                && e.index < lines_at(levels@, i).len() && e.line@ == lines_at(levels@, i)[e.index as int]@,
            Err(Error::Io(m)) => exists|i: int| 0 <= i < levels@.len() && absent_before(levels@, i)
                && levels@[i] == Probe::Unreadable(m),
        },
{
    from_filename_with_prefix(levels, "", env)
}

} // verus!

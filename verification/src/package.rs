//! PyPI distribution names, tool identifiers with extras, and release files.
use crate::sorted::{insert_sorted, lemma_insert_at, lemma_sort_dedup, lemma_sort_dedup_of_sorted, sort_dedup, sorted_by, total_order};
use crate::text::{
    debug_quote, debug_text, is_alnum, join_text, join_with, lemma_split_join, lemma_split_nonempty,
    lemma_text_lt_irreflexive, lemma_text_lt_total, lemma_text_lt_transitive, push_char, split_on,
    split_text, text_less, text_lt, views,
};
use vstd::prelude::*;

verus! {

/// A separator inside a distribution name.
pub open spec fn is_separator(c: char) -> bool {
    c == '-' || c == '_' || c == '.'
}

/// A character that a distribution name may hold.
pub open spec fn is_name_char(c: char) -> bool {
    is_alnum(c) || is_separator(c)
}

/// A distribution name: ASCII letters, digits and separators, beginning and
/// ending with a letter or digit.
pub open spec fn valid_name(v: Seq<char>) -> bool {
    &&& v.len() > 0
    &&& is_alnum(v[0])
    &&& is_alnum(v.last())
    &&& forall|i: int| 0 <= i < v.len() ==> #[trigger] is_name_char(v[i])
}

/// ASCII lowercase of one character.
pub open spec fn ascii_lower(c: char) -> char {
    if 'A' <= c && c <= 'Z' {
        ((c as u32) + 32) as char
    } else {
        c
    }
}

/// PEP 503 normalization: lowercase, each run of separators becomes one `-`.
pub open spec fn fold_name(v: Seq<char>) -> Seq<char>
    decreases v.len(),
{
    if v.len() == 0 {
        Seq::empty()
    } else {
        let prev = fold_name(v.drop_last());
        let c = v.last();
        if is_separator(c) {
            if prev.len() > 0 && prev.last() == '-' {
                prev
            } else {
                prev.push('-')
            }
        } else {
            prev.push(ascii_lower(c))
        }
    }
}

/// The error for a value that is no distribution name.
pub open spec fn invalid_name_message(v: Seq<char>) -> Seq<char> {
    "Invalid PyPI package name: "@ + debug_text(v)
        + ". Use a distribution name without extras or a URL."@
}

/// What `normalize_name` gives for a value.
pub open spec fn name_result(v: Seq<char>) -> Result<Seq<char>, Seq<char>> {
    if valid_name(v) {
        Ok(fold_name(v))
    } else {
        Err(invalid_name_message(v))
    }
}

/// The views of a result whose two sides are strings.
pub open spec fn result_view(r: Result<String, String>) -> Result<Seq<char>, Seq<char>> {
    match r {
        Ok(s) => Ok(s@),
        Err(e) => Err(e@),
    }
}

pub fn is_alnum_char(c: char) -> (r: bool)
    ensures
        r == is_alnum(c),
{
    ('0' <= c && c <= '9') || ('a' <= c && c <= 'z') || ('A' <= c && c <= 'Z')
}

pub fn is_separator_char(c: char) -> (r: bool)
    ensures
        r == is_separator(c),
{
    c == '-' || c == '_' || c == '.'
}

fn lower_char(c: char) -> (r: char)
    ensures
        r == ascii_lower(c),
{
    if 'A' <= c && c <= 'Z' {
        ((c as u8) + 32u8) as char
    } else {
        c
    }
}

/// Whether `s` is a distribution name.
pub fn is_valid_name(s: &str) -> (r: bool)
    ensures
        r == valid_name(s@),
{
    let n = s.unicode_len();
    if n == 0 {
        return false;
    }
    if !is_alnum_char(s.get_char(0)) || !is_alnum_char(s.get_char(n - 1)) {
        return false;
    }
    let mut i: usize = 0;
    while i < n
        invariant
            n == s@.len(),
            i <= n,
            forall|k: int| 0 <= k < i ==> #[trigger] is_name_char(s@[k]),
        decreases n - i,
    {
        let c = s.get_char(i);
        if !is_alnum_char(c) && !is_separator_char(c) {
            assert(!is_name_char(s@[i as int]));
            return false;
        }
        i = i + 1;
    }
    true
}

/// Accept distribution names only; never pass URLs, extras, or options to uv.
pub fn normalize_name(value: &str) -> (r: Result<String, String>)
    ensures
        result_view(r) == name_result(value@),
{
    if !is_valid_name(value) {
        let mut message = String::from_str("Invalid PyPI package name: ");
        let quoted = debug_quote(value);
        message.append(quoted.as_str());
        message.append(". Use a distribution name without extras or a URL.");
        return Err(message);
    }
    let n = value.unicode_len();
    let mut normalized = String::new();
    let mut i: usize = 0;
    while i < n
        invariant
            n == value@.len(),
            i <= n,
            normalized@ == fold_name(value@.take(i as int)),
        decreases n - i,
    {
        let c = value.get_char(i);
        assert(value@.take(i + 1).drop_last() == value@.take(i as int));
        let m = normalized.as_str().unicode_len();
        let ends_with_dash = m > 0 && normalized.as_str().get_char(m - 1) == '-';
        if is_separator_char(c) {
            if !ends_with_dash {
                push_char(&mut normalized, '-');
            }
        } else {
            push_char(&mut normalized, lower_char(c));
        }
        i = i + 1;
    }
    assert(value@.take(n as int) == value@);
    Ok(normalized)
}


/// The order in which extras are kept.
pub open spec fn text_order() -> spec_fn(Seq<char>, Seq<char>) -> bool {
    |a: Seq<char>, b: Seq<char>| text_lt(a, b)
}

pub proof fn lemma_text_order()
    ensures
        total_order(text_order()),
{
    assert forall|a: Seq<char>| !#[trigger] text_order()(a, a) by {
        lemma_text_lt_irreflexive(a);
    }
    assert forall|a: Seq<char>, b: Seq<char>, c: Seq<char>|
        #[trigger] text_order()(a, b) && #[trigger] text_order()(b, c) implies text_order()(a, c) by {
        lemma_text_lt_transitive(a, b, c);
    }
    assert forall|a: Seq<char>, b: Seq<char>| a != b implies #[trigger] text_order()(a, b) || text_order()(b, a) by {
        lemma_text_lt_total(a, b);
    }
}

/// The index of the first piece that is no distribution name, if any.
pub open spec fn first_invalid(parts: Seq<Seq<char>>) -> Option<int>
    decreases parts.len(),
{
    if parts.len() == 0 {
        None
    } else {
        match first_invalid(parts.drop_last()) {
            Some(i) => Some(i),
            None => if valid_name(parts.last()) {
                None
            } else {
                Some(parts.len() - 1)
            },
        }
    }
}

/// The tool identifier of a name and its extras.
pub open spec fn identifier(name: Seq<char>, extras: Seq<Seq<char>>) -> Seq<char> {
    join_with(seq![name] + extras, '/')
}

/// The error for an identifier that is not in its canonical form.
pub open spec fn canonical_message(canonical: Seq<char>) -> Seq<char> {
    "Use the canonical tool identifier uv:"@ + canonical
}

/// What `Package::parse` gives for an identifier: its name and sorted extras,
/// or the error.
pub open spec fn parse_id(id: Seq<char>) -> Result<(Seq<char>, Seq<Seq<char>>), Seq<char>> {
    let parts = split_on(id, '/');
    match first_invalid(parts) {
        Some(i) => Err(invalid_name_message(parts[i])),
        None => {
            let name = fold_name(parts[0]);
            let extras = sort_dedup(parts.drop_first().map_values(|p: Seq<char>| fold_name(p)), text_order());
            let canonical = identifier(name, extras);
            if canonical == id {
                Ok((name, extras))
            } else {
                Err(canonical_message(canonical))
            }
        },
    }
}

/// The requirement that uv installs: the name, with its extras in brackets.
pub open spec fn requirement_text(name: Seq<char>, extras: Seq<Seq<char>>) -> Seq<char> {
    if extras.len() == 0 {
        name
    } else {
        name + seq!['['] + join_with(extras, ',') + seq![']']
    }
}

/// A PyPI distribution together with the extras that it is installed with.
#[derive(Debug, PartialEq, Eq)]
pub struct Package {
    pub name: String,
    pub extras: Vec<String>,
}

impl View for Package {
    type V = (Seq<char>, Seq<Seq<char>>);

    open spec fn view(&self) -> (Seq<char>, Seq<Seq<char>>) {
        (self.name@, views(self.extras@))
    }
}

/// Inserts `x` at its place among sorted extras, unless it is there already.
fn insert_extra(sorted: &mut Vec<String>, x: String)
    requires
        sorted_by(views(old(sorted)@), text_order()),
    ensures
        views(final(sorted)@) == insert_sorted(views(old(sorted)@), x@, text_order()),
{
    proof {
        lemma_text_order();
    }
    let ghost s = views(sorted@);
    let mut j: usize = 0;
    while j < sorted.len() && text_less(sorted[j].as_str(), x.as_str())
        invariant
            s == views(sorted@),
            j <= sorted.len(),
            forall|k: int| 0 <= k < j ==> #[trigger] text_order()(s[k], x@),
        decreases sorted.len() - j,
    {
        j = j + 1;
    }
    proof {
        lemma_insert_at(s, x@, text_order(), j as int);
    }
    if j < sorted.len() && !text_less(x.as_str(), sorted[j].as_str()) {
        return;
    }
    sorted.insert(j, x);
    assert(views(sorted@) =~= s.insert(j as int, x@));
}

impl Package {
    /// Slash-separated extras fit proto's identifier grammar. Require canonical
    /// identifiers because proto owns the tool identity before calling our hooks.
    pub fn parse(id: &str) -> (r: Result<Package, String>)
        ensures
            match r {
                Ok(p) => parse_id(id@) == Ok::<_, Seq<char>>(p@),
                Err(e) => parse_id(id@) == Err::<(Seq<char>, Seq<Seq<char>>), _>(e@),
            },
    {
        let parts = split_text(id, '/');
        let ghost ps = views(parts@);
        proof {
            lemma_split_nonempty(id@, '/');
            lemma_text_order();
        }
        assert(ps.take(1).drop_last() =~= ps.take(0));
        assert(first_invalid(ps.take(0)) is None);
        assert(ps.take(1).last() == ps[0]);
        let name = match normalize_name(parts[0].as_str()) {
            Ok(n) => {
                assert(first_invalid(ps.take(1)) is None);
                n
            },
            Err(e) => {
                assert(first_invalid(ps.take(1)) == Some(0int));
                proof { lemma_first_invalid_prefix(ps, 1); }
                return Err(e);
            },
        };
        let mut extras: Vec<String> = Vec::new();
        let mut i: usize = 1;
        while i < parts.len()
            invariant
                ps == views(parts@),
                ps == split_on(id@, '/'),
                1 <= i <= parts.len(),
                first_invalid(ps.take(i as int)) is None,
                name@ == fold_name(ps[0]),
                views(extras@) == sort_dedup(
                    ps.take(i as int).drop_first().map_values(|p: Seq<char>| fold_name(p)),
                    text_order(),
                ),
                sorted_by(views(extras@), text_order()),
                total_order(text_order()),
            decreases parts.len() - i,
        {
            let ghost prev = ps.take(i as int).drop_first().map_values(|p: Seq<char>| fold_name(p));
            assert(ps.take(i + 1).drop_last() =~= ps.take(i as int));
            match normalize_name(parts[i].as_str()) {
                Ok(n) => {
                    let ghost next = ps.take(i + 1).drop_first().map_values(|p: Seq<char>| fold_name(p));
                    assert(next.drop_last() =~= prev);
                    insert_extra(&mut extras, n);
                    proof { lemma_sort_dedup(next, text_order()); }
                },
                Err(e) => {
                    proof { lemma_first_invalid_prefix(ps, i + 1); }
                    return Err(e);
                },
            }
            i = i + 1;
        }
        assert(ps.take(parts.len() as int) =~= ps);
        let mut all: Vec<String> = Vec::new();
        all.push(name.clone());
        let mut k: usize = 0;
        while k < extras.len()
            invariant
                k <= extras.len(),
                views(all@) =~= seq![name@] + views(extras@).take(k as int),
            decreases extras.len() - k,
        {
            let ghost before = views(all@);
            all.push(extras[k].clone());
            assert(views(all@) =~= before.push(extras@[k as int]@));
            assert(views(extras@).take(k + 1) =~= views(extras@).take(k as int).push(extras@[k as int]@));
            k = k + 1;
        }
        assert(views(extras@).take(extras.len() as int) =~= views(extras@));
        let canonical = join_text(&all, '/');
        let given = String::from_str(id);
        if canonical != given {
            let mut message = String::from_str("Use the canonical tool identifier uv:");
            message.append(canonical.as_str());
            return Err(message);
        }
        Ok(Package { name, extras })
    }

    /// The requirement that uv installs, such as `black[colorama,d]`.
    pub fn requirement(&self) -> (r: String)
        ensures
            r@ == requirement_text(self@.0, self@.1),
    {
        if self.extras.len() == 0 {
            self.name.clone()
        } else {
            let mut r = self.name.clone();
            push_char(&mut r, '[');
            let joined = join_text(&self.extras, ',');
            r.append(joined.as_str());
            push_char(&mut r, ']');
            r
        }
    }
}

/// Where a prefix of the pieces already holds an invalid piece, the whole
/// sequence has the same first invalid piece.
pub proof fn lemma_first_invalid_prefix(parts: Seq<Seq<char>>, n: int)
    requires
        0 <= n <= parts.len(),
        first_invalid(parts.take(n)) is Some,
    ensures
        first_invalid(parts) == first_invalid(parts.take(n)),
    decreases parts.len() - n,
{
    if n < parts.len() {
        assert(parts.take(n + 1).drop_last() =~= parts.take(n));
        lemma_first_invalid_prefix(parts, n + 1);
    } else {
        assert(parts.take(n) =~= parts);
    }
}


/// One file of a release on PyPI.
#[derive(Debug)]
pub struct ReleaseFile {
    pub yanked: bool,
    pub packagetype: String,
}

/// A release of a project on PyPI: its version text and its files.
#[derive(Debug)]
pub struct Release {
    pub version: String,
    pub files: Vec<ReleaseFile>,
}

/// The releases of a project on PyPI, in the order of their version texts.
#[derive(Debug)]
pub struct Project {
    pub releases: Vec<Release>,
}

/// A file that uv may install without building: a wheel that is not yanked.
pub open spec fn installable(f: ReleaseFile) -> bool {
    !f.yanked && f.packagetype@ == "bdist_wheel"@
}

/// Some file of the release is installable.
pub open spec fn has_wheel(files: Seq<ReleaseFile>) -> bool {
    exists|i: int| 0 <= i < files.len() && #[trigger] installable(files[i])
}

/// The version texts of the releases that have an installable file, in order.
pub open spec fn available(releases: Seq<Release>) -> Seq<Seq<char>>
    decreases releases.len(),
{
    if releases.len() == 0 {
        Seq::empty()
    } else {
        let prev = available(releases.drop_last());
        if has_wheel(releases.last().files@) {
            prev.push(releases.last().version@)
        } else {
            prev
        }
    }
}

fn release_has_wheel(files: &Vec<ReleaseFile>) -> (r: bool)
    ensures
        r == has_wheel(files@),
{
    let wheel = String::from_str("bdist_wheel");
    let mut i: usize = 0;
    while i < files.len()
        invariant
            i <= files.len(),
            wheel@ == "bdist_wheel"@,
            forall|k: int| 0 <= k < i ==> !#[trigger] installable(files@[k]),
        decreases files.len() - i,
    {
        if !files[i].yanked && files[i].packagetype == wheel {
            assert(installable(files@[i as int]));
            return true;
        }
        i = i + 1;
    }
    false
}

impl Project {
    /// Source builds are deliberately disabled; require a non-yanked wheel.
    pub fn available_versions(&self) -> (r: Vec<String>)
        ensures
            views(r@) == available(self.releases@),
    {
        let mut r: Vec<String> = Vec::new();
        let mut i: usize = 0;
        while i < self.releases.len()
            invariant
                i <= self.releases.len(),
                views(r@) == available(self.releases@.take(i as int)),
            decreases self.releases.len() - i,
        {
            assert(self.releases@.take(i + 1).drop_last() =~= self.releases@.take(i as int));
            assert(self.releases@.take(i + 1).last() == self.releases@[i as int]);
            if release_has_wheel(&self.releases[i].files) {
                let ghost before = views(r@);
                r.push(self.releases[i].version.clone());
                assert(views(r@) =~= before.push(self.releases@[i as int].version@));
            }
            i = i + 1;
        }
        assert(self.releases@.take(self.releases.len() as int) =~= self.releases@);
        r
    }
}


/// Normalized form: lowercase letters, digits and single dashes.
pub open spec fn canonical_chars(n: Seq<char>) -> bool {
    &&& forall|i: int| 0 <= i < n.len() ==> #[trigger] is_digit_or_lower(n[i]) || n[i] == '-'
    &&& forall|i: int| 0 <= i < n.len() - 1 ==> !(#[trigger] n[i] == '-' && n[i + 1] == '-')
}

pub open spec fn is_digit_or_lower(c: char) -> bool {
    ('0' <= c && c <= '9') || ('a' <= c && c <= 'z')
}

proof fn lemma_lower_alnum(c: char)
    requires
        is_alnum(c),
    ensures
        is_digit_or_lower(ascii_lower(c)),
        is_alnum(ascii_lower(c)),
{
}

proof fn lemma_fold_canonical(v: Seq<char>)
    requires
        forall|i: int| 0 <= i < v.len() ==> #[trigger] is_name_char(v[i]),
    ensures
        canonical_chars(fold_name(v)),
    decreases v.len(),
{
    if v.len() > 0 {
        let p = v.drop_last();
        assert forall|i: int| 0 <= i < p.len() implies #[trigger] is_name_char(p[i]) by {
            assert(p[i] == v[i]);
        }
        lemma_fold_canonical(p);
        let c = v.last();
        assert(is_name_char(v[v.len() - 1]));
        if !is_separator(c) {
            lemma_lower_alnum(c);
        }
        let f = fold_name(v);
        let q = fold_name(p);
        assert forall|i: int| 0 <= i < f.len() implies #[trigger] is_digit_or_lower(f[i]) || f[i] == '-' by {
            if i < q.len() {
                assert(f[i] == q[i]);
            }
        }
        assert forall|i: int| 0 <= i < f.len() - 1 implies !(#[trigger] f[i] == '-' && f[i + 1] == '-') by {
            if i + 1 < q.len() {
                assert(f[i] == q[i] && f[i + 1] == q[i + 1]);
            }
        }
    }
}

proof fn lemma_fold_fixed(n: Seq<char>)
    requires
        canonical_chars(n),
    ensures
        fold_name(n) == n,
    decreases n.len(),
{
    if n.len() > 0 {
        let p = n.drop_last();
        assert(canonical_chars(p)) by {
            assert forall|i: int| 0 <= i < p.len() implies #[trigger] is_digit_or_lower(p[i]) || p[i] == '-' by {
                assert(p[i] == n[i]);
                assert(is_digit_or_lower(n[i]) || n[i] == '-');
            }
            assert forall|i: int| 0 <= i < p.len() - 1 implies !(#[trigger] p[i] == '-' && p[i + 1] == '-') by {
                assert(p[i] == n[i] && p[i + 1] == n[i + 1]);
                assert(!(n[i] == '-' && n[i + 1] == '-'));
            }
        }
        lemma_fold_fixed(p);
        let c = n.last();
        assert(is_digit_or_lower(n[n.len() - 1]) || n[n.len() - 1] == '-');
        if c == '-' && p.len() > 0 {
            assert(!(n[n.len() - 2] == '-' && n[n.len() - 1] == '-'));
        }
        assert(p.push(c) =~= n);
    }
}

proof fn lemma_fold_first(v: Seq<char>)
    requires
        v.len() > 0,
        !is_separator(v[0]),
    ensures
        fold_name(v).len() > 0,
        fold_name(v)[0] == ascii_lower(v[0]),
    decreases v.len(),
{
    if v.len() > 1 {
        let p = v.drop_last();
        assert(p[0] == v[0]);
        lemma_fold_first(p);
        let q = fold_name(p);
        let c = v.last();
        if is_separator(c) {
            if !(q.len() > 0 && q.last() == '-') {
                assert(q.push('-')[0] == q[0]);
            }
        } else {
            assert(q.push(ascii_lower(c))[0] == q[0]);
        }
    } else {
        assert(fold_name(v.drop_last()) == Seq::<char>::empty());
        assert(v.last() == v[0]);
        assert(fold_name(v) =~= seq![ascii_lower(v[0])]);
    }
}

/// A normalized name is a distribution name whose normalization is itself.
pub proof fn law_normalized_name_is_fixed(v: Seq<char>)
    requires
        name_result(v) is Ok,
    ensures
        name_result(fold_name(v)) == Ok::<Seq<char>, Seq<char>>(fold_name(v)),
        canonical_chars(fold_name(v)),
{
    let f = fold_name(v);
    lemma_fold_canonical(v);
    lemma_fold_fixed(f);
    lemma_fold_first(v);
    lemma_lower_alnum(v[0]);
    let c = v.last();
    assert(is_alnum(v[v.len() - 1]));
    lemma_lower_alnum(c);
    assert(f.last() == ascii_lower(c));
    assert forall|i: int| 0 <= i < f.len() implies #[trigger] is_name_char(f[i]) by {
        assert(is_digit_or_lower(f[i]) || f[i] == '-');
    }
}

/// Normalizing a normalized name changes nothing.
pub proof fn law_normalize_idempotent(v: Seq<char>, n: Seq<char>)
    requires
        name_result(v) == Ok::<Seq<char>, Seq<char>>(n),
    ensures
        name_result(n) == Ok::<Seq<char>, Seq<char>>(n),
{
    law_normalized_name_is_fixed(v);
}

proof fn lemma_first_invalid_none(parts: Seq<Seq<char>>)
    requires
        first_invalid(parts) is None,
    ensures
        forall|i: int| 0 <= i < parts.len() ==> #[trigger] valid_name(parts[i]),
    decreases parts.len(),
{
    if parts.len() > 0 {
        let p = parts.drop_last();
        lemma_first_invalid_none(p);
        assert forall|i: int| 0 <= i < parts.len() implies #[trigger] valid_name(parts[i]) by {
            if i < p.len() {
                assert(parts[i] == p[i]);
            }
        }
    }
}

/// A parsed tool identifier is canonical: it is the identifier of its name
/// and extras, the extras are sorted and distinct, and every name in it is
/// already normalized. So each combination of extras is one tool identity.
pub proof fn law_parse_canonical(id: Seq<char>)
    requires
        parse_id(id) is Ok,
    ensures
        ({
            let (name, extras) = parse_id(id)->Ok_0;
            &&& identifier(name, extras) == id
            &&& sorted_by(extras, text_order())
            &&& name_result(name) == Ok::<Seq<char>, Seq<char>>(name)
            &&& forall|k: int| 0 <= k < extras.len() ==> name_result(#[trigger] extras[k])
                == Ok::<Seq<char>, Seq<char>>(extras[k])
        }),
{
    let parts = split_on(id, '/');
    lemma_split_nonempty(id, '/');
    lemma_first_invalid_none(parts);
    lemma_text_order();
    let (name, extras) = parse_id(id)->Ok_0;
    assert(valid_name(parts[0]));
    law_normalized_name_is_fixed(parts[0]);
    let folded = parts.drop_first().map_values(|p: Seq<char>| fold_name(p));
    lemma_sort_dedup(folded, text_order());
    assert forall|k: int| 0 <= k < extras.len() implies name_result(#[trigger] extras[k])
        == Ok::<Seq<char>, Seq<char>>(extras[k]) by {
        assert(extras.contains(extras[k]));
        assert(folded.contains(extras[k]));
        let m = choose|m: int| 0 <= m < folded.len() && folded[m] == extras[k];
        assert(valid_name(parts[m + 1]));
        law_normalized_name_is_fixed(parts[m + 1]);
    }
}


proof fn lemma_normalized_has_no_slash(n: Seq<char>)
    requires
        name_result(n) == Ok::<Seq<char>, Seq<char>>(n),
    ensures
        !n.contains('/'),
{
    if n.contains('/') {
        let i = choose|i: int| 0 <= i < n.len() && n[i] == '/';
        assert(is_name_char(n[i]));
    }
}

/// Every canonical combination is a tool: the identifier of a normalized
/// name with sorted, distinct, normalized extras parses back to them.
pub proof fn law_canonical_identifier_parses(name: Seq<char>, extras: Seq<Seq<char>>)
    requires
        name_result(name) == Ok::<Seq<char>, Seq<char>>(name),
        forall|k: int| 0 <= k < extras.len() ==> name_result(#[trigger] extras[k]) == Ok::<Seq<char>, Seq<char>>(extras[k]),
        sorted_by(extras, text_order()),
    ensures
        parse_id(identifier(name, extras)) == Ok::<(Seq<char>, Seq<Seq<char>>), Seq<char>>((name, extras)),
{
    let all = seq![name] + extras;
    assert forall|i: int| 0 <= i < all.len() implies name_result(#[trigger] all[i]) == Ok::<Seq<char>, Seq<char>>(all[i]) by {
        if i > 0 {
            assert(all[i] == extras[i - 1]);
        }
    }
    assert forall|i: int| 0 <= i < all.len() implies !(#[trigger] all[i]).contains('/') by {
        lemma_normalized_has_no_slash(all[i]);
    }
    lemma_split_join(all, '/');
    let parts = split_on(identifier(name, extras), '/');
    assert(parts == all);
    lemma_first_invalid_all_valid(all);
    assert(all.drop_first() =~= extras);
    let folded = extras.map_values(|p: Seq<char>| fold_name(p));
    assert(folded =~= extras);
    lemma_text_order();
    lemma_sort_dedup_of_sorted(extras, text_order());
}

proof fn lemma_first_invalid_all_valid(parts: Seq<Seq<char>>)
    requires
        forall|i: int| 0 <= i < parts.len() ==> name_result(#[trigger] parts[i]) is Ok,
    ensures
        first_invalid(parts) is None,
    decreases parts.len(),
{
    if parts.len() > 0 {
        let p = parts.drop_last();
        assert forall|i: int| 0 <= i < p.len() implies name_result(#[trigger] p[i]) is Ok by {
            assert(p[i] == parts[i]);
        }
        lemma_first_invalid_all_valid(p);
        assert(name_result(parts[parts.len() - 1]) is Ok);
    }
}


/// A release's version is listed exactly when some file of the release, at
/// any position, is a wheel that is not yanked; nothing else is listed.
pub proof fn law_available_versions(releases: Seq<Release>)
    ensures
        forall|k: int, i: int|
            0 <= k < releases.len() && 0 <= i < releases[k].files@.len() && !(#[trigger] releases[k].files@[i]).yanked
                && releases[k].files@[i].packagetype@ == "bdist_wheel"@ ==> available(releases).contains(
                #[trigger] releases[k].version@,
            ),
        forall|v: Seq<char>| #[trigger] available(releases).contains(v) ==> exists|k: int, i: int|
            0 <= k < releases.len() && 0 <= i < releases[k].files@.len() && releases[k].version@ == v
                && !(#[trigger] releases[k].files@[i]).yanked && releases[k].files@[i].packagetype@ == "bdist_wheel"@,
    decreases releases.len(),
{
    if releases.len() > 0 {
        let p = releases.drop_last();
        let last = releases.len() - 1;
        law_available_versions(p);
        let prev = available(p);
        let a = available(releases);
        assert(releases[last] == releases.last());
        assert forall|v: Seq<char>| prev.contains(v) implies #[trigger] a.contains(v) by {
            let j = choose|j: int| 0 <= j < prev.len() && prev[j] == v;
            if has_wheel(releases.last().files@) {
                assert(a[j] == prev[j]);
            }
        }
        assert forall|k: int, i: int|
            0 <= k < releases.len() && 0 <= i < releases[k].files@.len() && !(#[trigger] releases[k].files@[i]).yanked
                && releases[k].files@[i].packagetype@ == "bdist_wheel"@ implies a.contains(
                #[trigger] releases[k].version@,
            ) by {
            if k < last {
                assert(p[k] == releases[k]);
                assert(prev.contains(p[k].version@));
            } else {
                assert(installable(releases.last().files@[i]));
                assert(has_wheel(releases.last().files@));
                assert(a[a.len() - 1] == releases.last().version@);
            }
        }
        assert forall|v: Seq<char>| #[trigger] a.contains(v) implies exists|k: int, i: int|
            0 <= k < releases.len() && 0 <= i < releases[k].files@.len() && releases[k].version@ == v
                && !(#[trigger] releases[k].files@[i]).yanked && releases[k].files@[i].packagetype@ == "bdist_wheel"@ by {
            let j = choose|j: int| 0 <= j < a.len() && a[j] == v;
            if j < prev.len() {
                assert(prev[j] == v);
                assert(prev.contains(v));
                let (k, i) = choose|k: int, i: int|
                    0 <= k < p.len() && 0 <= i < p[k].files@.len() && p[k].version@ == v
                        && !(#[trigger] p[k].files@[i]).yanked && p[k].files@[i].packagetype@ == "bdist_wheel"@;
                assert(releases[k] == p[k]);
            } else {
                assert(has_wheel(releases.last().files@));
                let i = choose|i: int| 0 <= i < releases.last().files@.len() && #[trigger] installable(releases.last().files@[i]);
                assert(releases[last].files@[i] == releases.last().files@[i]);
            }
        }
    }
}

/// Without extras uv installs the bare name; with extras it installs the name
/// followed by a bracketed list that separates back into exactly the extras.
pub proof fn law_requirement_lists_extras(name: Seq<char>, extras: Seq<Seq<char>>)
    requires
        forall|k: int| 0 <= k < extras.len() ==> !(#[trigger] extras[k]).contains(','),
    ensures
        extras.len() == 0 ==> requirement_text(name, extras) == name,
        extras.len() > 0 ==> ({
            let r = requirement_text(name, extras);
            &&& r.len() >= name.len() + 2
            &&& r.take(name.len() as int) == name
            &&& r[name.len() as int] == '['
            &&& r.last() == ']'
            &&& split_on(r.subrange(name.len() + 1int, r.len() - 1), ',') == extras
        }),
{
    if extras.len() > 0 {
        let j = join_with(extras, ',');
        let r = requirement_text(name, extras);
        lemma_split_join(extras, ',');
        assert(r.subrange(name.len() + 1int, r.len() - 1) =~= j);
        assert(r.take(name.len() as int) =~= name);
    }
}

/// Names with extras that are normalized never hold a comma, so the
/// requirement of a parsed package lists exactly its extras.
pub proof fn law_parsed_requirement(id: Seq<char>)
    requires
        parse_id(id) is Ok,
    ensures
        ({
            let (name, extras) = parse_id(id)->Ok_0;
            let r = requirement_text(name, extras);
            &&& extras.len() == 0 ==> r == name
            &&& extras.len() > 0 ==> r.take(name.len() as int) == name && r[name.len() as int] == '['
                && r.last() == ']' && split_on(r.subrange(name.len() + 1int, r.len() - 1), ',') == extras
        }),
{
    law_parse_canonical(id);
    let (name, extras) = parse_id(id)->Ok_0;
    assert forall|k: int| 0 <= k < extras.len() implies !(#[trigger] extras[k]).contains(',') by {
        if extras[k].contains(',') {
            let i = choose|i: int| 0 <= i < extras[k].len() && extras[k][i] == ',';
            assert(valid_name(extras[k]));
            assert(is_name_char(extras[k][i]));
        }
    }
    law_requirement_lists_extras(name, extras);
}


proof fn lemma_fold_nonempty(v: Seq<char>)
    requires
        v.len() > 0,
    ensures
        fold_name(v).len() > 0,
    decreases v.len(),
{
    if v.len() > 1 {
        lemma_fold_nonempty(v.drop_last());
    }
}

/// Folding continues from a prefix as from the start, unless the prefix's
/// result ends in a dash and the rest starts with a separator.
proof fn lemma_fold_append(a: Seq<char>, b: Seq<char>)
    requires
        !(fold_name(a).len() > 0 && fold_name(a).last() == '-') || (b.len() > 0 && !is_separator(b[0])),
    ensures
        fold_name(a + b) == fold_name(a) + fold_name(b),
    decreases b.len(),
{
    if b.len() == 0 {
        assert(a + b =~= a);
        assert(fold_name(a) + fold_name(b) =~= fold_name(a));
    } else {
        let bp = b.drop_last();
        let c = b.last();
        assert((a + b).drop_last() =~= a + bp);
        assert((a + b).last() == c);
        if bp.len() == 0 {
            assert(a + bp =~= a);
            assert(fold_name(bp) == Seq::<char>::empty());
            assert(b[0] == c);
            if is_separator(c) {
                assert(fold_name(b) =~= seq!['-']);
            } else {
                assert(fold_name(b) =~= seq![ascii_lower(c)]);
            }
            assert(fold_name(a + b) =~= fold_name(a) + fold_name(b));
        } else {
            assert(bp[0] == b[0]);
            lemma_fold_append(a, bp);
            lemma_fold_nonempty(bp);
            let fa = fold_name(a);
            let fb = fold_name(bp);
            assert((fa + fb).last() == fb.last());
            assert(fold_name(a + b) =~= fa + fold_name(b));
        }
    }
}

proof fn lemma_fold_separators(z: Seq<char>)
    requires
        z.len() > 0,
        forall|i: int| 0 <= i < z.len() ==> is_separator(#[trigger] z[i]),
    ensures
        fold_name(z) == seq!['-'],
    decreases z.len(),
{
    assert(is_separator(z[z.len() - 1]));
    if z.len() > 1 {
        let p = z.drop_last();
        assert forall|i: int| 0 <= i < p.len() implies is_separator(#[trigger] p[i]) by {
            assert(p[i] == z[i]);
        }
        lemma_fold_separators(p);
    } else {
        assert(fold_name(z.drop_last()) == Seq::<char>::empty());
        assert(fold_name(z) =~= seq!['-']);
    }
}

proof fn lemma_fold_without_separators(v: Seq<char>)
    requires
        forall|i: int| 0 <= i < v.len() ==> !is_separator(#[trigger] v[i]),
    ensures
        fold_name(v) == v.map_values(|c: char| ascii_lower(c)),
    decreases v.len(),
{
    if v.len() > 0 {
        let p = v.drop_last();
        assert forall|i: int| 0 <= i < p.len() implies !is_separator(#[trigger] p[i]) by {
            assert(p[i] == v[i]);
        }
        lemma_fold_without_separators(p);
        assert(!is_separator(v[v.len() - 1]));
        assert(fold_name(v) =~= v.map_values(|c: char| ascii_lower(c)));
    } else {
        assert(fold_name(v) =~= v.map_values(|c: char| ascii_lower(c)));
    }
}

/// What normalization does, over all names: a name without separators is
/// only lowercased, character by character, with nothing inserted; and a run
/// of separators between two names becomes one dash between their
/// normalizations. Every name is built from these two cases.
pub proof fn law_normalize_structure(v: Seq<char>, x: Seq<char>, z: Seq<char>, y: Seq<char>)
    ensures
        name_result(v) is Ok && (forall|i: int| 0 <= i < v.len() ==> !is_separator(#[trigger] v[i])) ==> name_result(v)
            == Ok::<Seq<char>, Seq<char>>(v.map_values(|c: char| ascii_lower(c))),
        name_result(x) is Ok && name_result(y) is Ok && z.len() > 0 && (forall|i: int|
            0 <= i < z.len() ==> is_separator(#[trigger] z[i])) ==> name_result(x + z + y) == Ok::<Seq<char>, Seq<char>>(
            name_result(x)->Ok_0 + seq!['-'] + name_result(y)->Ok_0,
        ),
{
    if name_result(v) is Ok && (forall|i: int| 0 <= i < v.len() ==> !is_separator(#[trigger] v[i])) {
        lemma_fold_without_separators(v);
    }
    if name_result(x) is Ok && name_result(y) is Ok && z.len() > 0 && (forall|i: int|
        0 <= i < z.len() ==> is_separator(#[trigger] z[i])) {
        let w = x + z + y;
        assert(is_alnum(x[0]) && is_alnum(x[x.len() - 1]));
        assert(is_alnum(y[0]) && is_alnum(y[y.len() - 1]));
        assert(w[0] == x[0]);
        assert(w.last() == y[y.len() - 1]);
        assert forall|i: int| 0 <= i < w.len() implies #[trigger] is_name_char(w[i]) by {
            if i < x.len() {
                assert(w[i] == x[i]);
                assert(is_name_char(x[i]));
            } else if i < x.len() + z.len() {
                assert(w[i] == z[i - x.len()]);
                assert(is_separator(z[i - x.len()]));
            } else {
                assert(w[i] == y[i - x.len() - z.len()]);
                assert(is_name_char(y[i - x.len() - z.len()]));
            }
        }
        assert(valid_name(w));
        let fx = fold_name(x);
        lemma_lower_alnum(x[x.len() - 1]);
        assert(x.last() == x[x.len() - 1]);
        assert(fx.last() == ascii_lower(x.last()));
        lemma_fold_append(x, z);
        lemma_fold_separators(z);
        assert(!is_separator(y[0]));
        lemma_fold_append(x + z, y);
        assert(fold_name(w) =~= fx + seq!['-'] + fold_name(y));
    }
}

} // verus!

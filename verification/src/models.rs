//! The master elements of a journal: accounts, commodities, payees and tags.
use vstd::prelude::*;
use crate::text::{chars_of, string_from_chars};

verus! {

/// Where an element was first seen.
#[derive(Copy, Clone, Debug, PartialEq, Eq, Structural)]
pub enum Origin {
    FromDirective,
    FromTransaction,
    Other,
}

/// Elements that are known by a name.
pub trait HasName {
    spec fn name(&self) -> Seq<char>;

    fn get_name(&self) -> (res: &str)
        ensures
            res@ == self.name(),
    ;
}

/// Elements that can be referred to by other names too.
pub trait HasAliases {
    spec fn alias_names(&self) -> Seq<String>;

    fn get_aliases(&self) -> (res: &Vec<String>)
        ensures
            res@ == self.alias_names(),
    ;
}

/// Elements that may have been declared by a directive.
pub trait FromDirective {
    spec fn declared(&self) -> bool;

    fn is_from_directive(&self) -> (res: bool)
        ensures
            res == self.declared(),
    ;
}

/// An account, such as `Assets:Checking`.
#[derive(Debug, Clone)]
pub struct Account {
    pub name: String,
    pub origin: Origin,
    pub note: Option<String>,
    pub isin: Option<String>,
    pub aliases: Vec<String>,
    pub check: Vec<String>,
    pub assert: Vec<String>,
    pub payee: Vec<String>,
    pub default: bool,
}

impl Account {
    /// An account known only by its name.
    pub fn from(name: &str) -> (res: Account)
        ensures
            res.name@ == name@,
            res.origin == Origin::Other,
            res.note is None,
            res.isin is None,
            res.aliases@.len() == 0,
            res.check@.len() == 0,
            res.assert@.len() == 0,
            res.payee@.len() == 0,
            !res.default,
    {
        Account {
            name: String::from_str(name),
            origin: Origin::Other,
            note: None,
            isin: None,
            aliases: Vec::new(),
            check: Vec::new(),
            assert: Vec::new(),
            payee: Vec::new(),
            default: false,
        }
    }
}

/// How many times `c` occurs in `s`.
pub open spec fn count_char(s: Seq<char>, c: char) -> nat
    decreases s.len(),
{
    if s.len() == 0 {
        0
    } else {
        count_char(s.drop_last(), c) + if s.last() == c {
            1nat
        } else {
            0nat
        }
    }
}

/// The position of the last `c` in `s`, or -1.
pub open spec fn last_index_of(s: Seq<char>, c: char) -> int
    decreases s.len(),
{
    if s.len() == 0 {
        -1
    } else if s.last() == c {
        s.len() - 1
    } else {
        last_index_of(s.drop_last(), c)
    }
}

/// A name with `n` colons has `n + 1` levels.
pub open spec fn spec_depth(name: Seq<char>) -> nat {
    count_char(name, ':') + 1
}

/// The name of the parent account: everything before the last colon.
pub open spec fn spec_parent_name(name: Seq<char>) -> Option<Seq<char>> {
    if count_char(name, ':') == 0 {
        None
    } else {
        Some(name.take(last_index_of(name, ':')))
    }
}

proof fn lemma_last_index_of(s: Seq<char>, c: char)
    ensures
        -1 <= last_index_of(s, c) < s.len(),
        (last_index_of(s, c) == -1) <==> (count_char(s, c) == 0),
        last_index_of(s, c) >= 0 ==> s[last_index_of(s, c)] == c,
    decreases s.len(),
{
    if s.len() > 0 {
        lemma_last_index_of(s.drop_last(), c);
    }
}

impl Account {
    /// The number of levels of the account: `Assets:Bank` has two.
    pub fn depth(&self) -> (res: usize)
        requires
            self.name@.len() < usize::MAX,
        ensures
            res == spec_depth(self.name@),
    {
        let chars = chars_of(self.name.as_str());
        let mut count: usize = 0;
        let n = chars.len();
        for i in 0..n
            invariant
                n == chars@.len(),
                chars@ == self.name@,
                count == count_char(chars@.take(i as int), ':'),
                count <= i,
                n < usize::MAX,
        {
            assert(chars@.take(i + 1).drop_last() =~= chars@.take(i as int));
            if chars[i] == ':' {
                count = count + 1;
            }
        }
        assert(chars@.take(n as int) =~= chars@);
        count + 1
    }

    /// The name of the parent account: `Expenses:Groceries` for
    /// `Expenses:Groceries:Supermarket`, nothing for a top level account.
    pub fn parent_name(&self) -> (res: Option<String>)
        requires
            self.name@.len() < usize::MAX,
        ensures
            match res {
                Some(p) => spec_parent_name(self.name@) == Some(p@),
                None => spec_parent_name(self.name@) is None,
            },
    {
        if self.depth() == 1 {
            return None;
        }
        let chars = chars_of(self.name.as_str());
        let n = chars.len();
        let mut k: usize = n;
        assert(chars@.take(n as int) =~= chars@);
        while k > 0 && chars[k - 1] != ':'
            invariant
                k <= n,
                n == chars@.len(),
                chars@ == self.name@,
                last_index_of(chars@, ':') == last_index_of(chars@.take(k as int), ':'),
            decreases k,
        {
            assert(chars@.take(k as int).drop_last() =~= chars@.take(k - 1));
            k = k - 1;
        }
        proof {
            lemma_last_index_of(chars@, ':');
            if k == 0 {
                assert(chars@.take(0) =~= Seq::<char>::empty());
            } else {
                assert(chars@.take(k as int).last() == ':');
            }
        }
        let parent = self.name.as_str().substring_char(0, k - 1);
        Some(String::from_str(parent))
    }
}

impl HasName for Account {
    open spec fn name(&self) -> Seq<char> {
        self.name@
    }

    fn get_name(&self) -> (res: &str) {
        self.name.as_str()
    }
}

impl HasAliases for Account {
    open spec fn alias_names(&self) -> Seq<String> {
        self.aliases@
    }

    fn get_aliases(&self) -> (res: &Vec<String>) {
        &self.aliases
    }
}

impl FromDirective for Account {
    open spec fn declared(&self) -> bool {
        self.origin == Origin::FromDirective
    }

    fn is_from_directive(&self) -> (res: bool) {
        match self.origin {
            Origin::FromDirective => true,
            _ => false,
        }
    }
}

/// A commodity (currency), such as `EUR` or `€`.
#[derive(Debug, Clone)]
pub struct Currency {
    pub name: String,
    pub origin: Origin,
    pub note: Option<String>,
    pub aliases: Vec<String>,
    pub format: Option<String>,
    pub default: bool,
}

impl Currency {
    /// A commodity known only by its name.
    pub fn from(name: &str) -> (res: Currency)
        ensures
            res.name@ == name@,
            res.origin == Origin::Other,
            res.note is None,
            res.aliases@.len() == 0,
            res.format is None,
            !res.default,
    {
        Currency {
            name: String::from_str(name),
            origin: Origin::Other,
            note: None,
            aliases: Vec::new(),
            format: None,
            default: false,
        }
    }
}

impl HasName for Currency {
    open spec fn name(&self) -> Seq<char> {
        self.name@
    }

    fn get_name(&self) -> (res: &str) {
        self.name.as_str()
    }
}

impl HasAliases for Currency {
    open spec fn alias_names(&self) -> Seq<String> {
        self.aliases@
    }

    fn get_aliases(&self) -> (res: &Vec<String>) {
        &self.aliases
    }
}

impl FromDirective for Currency {
    open spec fn declared(&self) -> bool {
        self.origin == Origin::FromDirective
    }

    fn is_from_directive(&self) -> (res: bool) {
        match self.origin {
            Origin::FromDirective => true,
            _ => false,
        }
    }
}

/// A payee, the other party of a transaction.
#[derive(Debug, Clone)]
pub struct Payee {
    pub name: String,
    pub note: Option<String>,
    pub alias: Vec<String>,
    pub origin: Origin,
}

impl Payee {
    /// A payee known only by its name.
    pub fn from(name: &str) -> (res: Payee)
        ensures
            res.name@ == name@,
            res.note is None,
            res.alias@.len() == 0,
            res.origin == Origin::Other,
    {
        Payee { name: String::from_str(name), note: None, alias: Vec::new(), origin: Origin::Other }
    }
}

impl HasName for Payee {
    open spec fn name(&self) -> Seq<char> {
        self.name@
    }

    fn get_name(&self) -> (res: &str) {
        self.name.as_str()
    }
}

impl HasAliases for Payee {
    open spec fn alias_names(&self) -> Seq<String> {
        self.alias@
    }

    fn get_aliases(&self) -> (res: &Vec<String>) {
        &self.alias
    }
}

impl FromDirective for Payee {
    open spec fn declared(&self) -> bool {
        self.origin == Origin::FromDirective
    }

    fn is_from_directive(&self) -> (res: bool) {
        match self.origin {
            Origin::FromDirective => true,
            _ => false,
        }
    }
}

/// A tag, declared by a `tag` directive or written in a comment.
#[derive(Debug, Clone)]
pub struct Tag {
    pub name: String,
    pub check: Vec<String>,
    pub assert: Vec<String>,
    pub value: Option<String>,
}

impl HasName for Tag {
    open spec fn name(&self) -> Seq<char> {
        self.name@
    }

    fn get_name(&self) -> (res: &str) {
        self.name.as_str()
    }
}

} // verus!

verus! {

/// A comment line of the journal.
#[derive(Debug, Clone)]
pub struct Comment {
    pub comment: String,
}

/// The position of the first `c` in `s`, or -1.
pub open spec fn first_index_of(s: Seq<char>, c: char) -> int
    decreases s.len(),
{
    if s.len() == 0 {
        -1
    } else if s[0] == c {
        0
    } else if first_index_of(s.drop_first(), c) < 0 {
        -1
    } else {
        first_index_of(s.drop_first(), c) + 1
    }
}

/// `s` cut at every `c`, as `str::split` cuts it.
pub open spec fn split_on(s: Seq<char>, c: char) -> Seq<Seq<char>>
    decreases s.len(),
{
    let k = first_index_of(s, c);
    if k < 0 {
        seq![s]
    } else {
        proof {
            lemma_first_index_of(s, c);
        }
        seq![s.take(k)] + split_on(s.skip(k + 1), c)
    }
}

/// The position of the last character that is not a space, or -1.
pub open spec fn last_non_space(s: Seq<char>) -> int
    decreases s.len(),
{
    if s.len() == 0 {
        -1
    } else if s.last() != ' ' {
        s.len() - 1
    } else {
        last_non_space(s.drop_last())
    }
}

/// The tag block of a comment: from its first colon to a colon that ends
/// the comment (spaces aside), with something in between.
pub open spec fn flags_span(s: Seq<char>) -> Option<(int, int)> {
    let j = last_non_space(s);
    let f = first_index_of(s, ':');
    if j >= 0 && s[j] == ':' && 0 <= f && f <= j - 2 {
        Some((f, j))
    } else {
        None
    }
}

/// The tags of a comment: the names of a `:a:b:` block at its end, or one
/// `name: value` pair (the name is what comes before the last colon, without
/// leading spaces, and may not hold a colon).
pub open spec fn spec_tags(s: Seq<char>) -> Seq<(Seq<char>, Option<Seq<char>>)> {
    match flags_span(s) {
        Some((f, j)) => {
            let parts = split_on(s.subrange(f, j + 1), ':');
            parts.drop_first().drop_last().map_values(|n: Seq<char>| (n, None::<Seq<char>>))
        },
        None => {
            let lc = last_index_of(s, ':');
            if lc < 0 {
                seq![]
            } else {
                let lead = crate::parser::skip_sp(s, 0);
                let name = if lead <= lc { s.subrange(lead, lc) } else { seq![] };
                if count_char(name, ':') > 0 {
                    seq![]
                } else {
                    seq![(name, Some(s.skip(crate::parser::skip_sp(s, lc + 1))))]
                }
            }
        },
    }
}

pub proof fn lemma_first_index_of(s: Seq<char>, c: char)
    ensures
        -1 <= first_index_of(s, c) < s.len(),
        first_index_of(s, c) >= 0 ==> s[first_index_of(s, c)] == c,
        forall|i: int| 0 <= i < s.len() && (first_index_of(s, c) < 0 || i < first_index_of(s, c)) ==> s[i] != c,
    decreases s.len(),
{
    if s.len() > 0 && s[0] != c {
        lemma_first_index_of(s.drop_first(), c);
        assert forall|i: int| 0 < i < s.len() implies s[i] == s.drop_first()[i - 1] by {}
    }
}

pub proof fn lemma_last_non_space(s: Seq<char>)
    ensures
        -1 <= last_non_space(s) < s.len(),
        last_non_space(s) >= 0 ==> s[last_non_space(s)] != ' ',
        forall|i: int| last_non_space(s) < i < s.len() ==> s[i] == ' ',
    decreases s.len(),
{
    if s.len() > 0 && s.last() == ' ' {
        lemma_last_non_space(s.drop_last());
        assert forall|i: int| 0 <= i < s.len() - 1 implies s[i] == s.drop_last()[i] by {}
    }
}

fn first_index_exec(s: &Vec<char>, from: usize, to: usize, c: char) -> (res: Option<usize>)
    requires
        from <= to <= s@.len(),
    ensures
        match res {
            Some(k) => from <= k < to && first_index_of(s@.subrange(from as int, to as int), c) == k - from,
            None => first_index_of(s@.subrange(from as int, to as int), c) < 0,
        },
{
    let ghost t = s@.subrange(from as int, to as int);
    proof {
        lemma_first_index_of(t, c);
    }
    let mut i = from;
    while i < to
        invariant
            from <= i <= to,
            to <= s@.len(),
            t == s@.subrange(from as int, to as int),
            forall|k: int| from <= k < i ==> s@[k] != c,
            -1 <= first_index_of(t, c) < t.len(),
            first_index_of(t, c) >= 0 ==> t[first_index_of(t, c)] == c,
            forall|k: int| 0 <= k < t.len() && (first_index_of(t, c) < 0 || k < first_index_of(t, c)) ==> t[k] != c,
        decreases to - i,
    {
        if s[i] == c {
            assert(t[i - from] == c);
            proof {
                let f = first_index_of(t, c);
                if f >= 0 && f < i - from {
                    assert(s@[from + f] == t[f]);
                }
            }
            return Some(i);
        }
        i = i + 1;
    }
    proof {
        let f = first_index_of(t, c);
        if f >= 0 {
            assert(s@[from + f] == t[f]);
        }
    }
    None
}

/// Cuts `s[from..to]` at every colon.
fn split_colons(s: &Vec<char>, from: usize, to: usize) -> (res: Vec<String>)
    requires
        from <= to <= s@.len(),
    ensures
        res@.map_values(|x: String| x@) == split_on(s@.subrange(from as int, to as int), ':'),
    decreases to - from,
{
    let ghost t = s@.subrange(from as int, to as int);
    match first_index_exec(s, from, to, ':') {
        None => {
            let mut out: Vec<String> = Vec::new();
            let mut piece: Vec<char> = Vec::new();
            for i in from..to
                invariant
                    to <= s@.len(),
                    piece@ == s@.subrange(from as int, i as int),
            {
                piece.push(s[i]);
                assert(piece@ =~= s@.subrange(from as int, i + 1));
            }
            out.push(string_from_chars(piece.as_slice()));
            assert(out@.map_values(|x: String| x@) =~= seq![t]);
            out
        },
        Some(k) => {
            let mut piece: Vec<char> = Vec::new();
            for i in from..k
                invariant
                    k <= s@.len(),
                    piece@ == s@.subrange(from as int, i as int),
            {
                piece.push(s[i]);
                assert(piece@ =~= s@.subrange(from as int, i + 1));
            }
            let rest = split_colons(s, k + 1, to);
            let mut out: Vec<String> = Vec::new();
            out.push(string_from_chars(piece.as_slice()));
            let n = rest.len();
            for i in 0..n
                invariant
                    n == rest@.len(),
                    out@.len() == i + 1,
                    out@[0]@ == s@.subrange(from as int, k as int),
                    forall|q: int| 0 <= q < i ==> out@[q + 1]@ == rest@[q]@,
            {
                out.push(rest[i].clone());
            }
            proof {
                assert(t.take(k - from) =~= s@.subrange(from as int, k as int));
                assert(t.skip(k - from + 1) =~= s@.subrange(k + 1, to as int));
                assert(out@.map_values(|x: String| x@) =~= seq![t.take(k - from)] + split_on(t.skip(k - from + 1), ':'));
            }
            out
        },
    }
}

impl Comment {
    /// The tags written in the comment (see `spec_tags`).
    pub fn get_tags(&self) -> (res: Vec<Tag>)
        ensures
            res@.len() == spec_tags(self.comment@).len(),
            forall|i: int| 0 <= i < res@.len() ==> (#[trigger] res@[i]).name@ == spec_tags(self.comment@)[i].0
                && crate::list::opt_chars(res@[i].value) == spec_tags(self.comment@)[i].1
                && res@[i].check@.len() == 0 && res@[i].assert@.len() == 0,
    {
        let s = chars_of(self.comment.as_str());
        let n = s.len();
        proof {
            lemma_last_non_space(s@);
            lemma_first_index_of(s@, ':');
            lemma_last_index_of(s@, ':');
        }
        let mut j: usize = n;
        assert(s@.take(n as int) =~= s@);
        while j > 0 && s[j - 1] == ' '
            invariant
                j <= n,
                n == s@.len(),
                last_non_space(s@) == last_non_space(s@.take(j as int)),
            decreases j,
        {
            assert(s@.take(j as int).drop_last() =~= s@.take(j - 1));
            j = j - 1;
        }
        proof {
            if j == 0 {
                assert(s@.take(0) =~= Seq::<char>::empty());
            }
        }
        let f = first_index_exec(&s, 0, n, ':');
        assert(s@.subrange(0, n as int) =~= s@);
        let mut out: Vec<Tag> = Vec::new();
        if j > 0 && s[j - 1] == ':' {
            match f {
                Some(fi) => {
                    if j >= 3 && fi <= j - 3 {
                        let parts = split_colons(&s, fi, j);
                        let m = parts.len();
                        let ghost sp = split_on(s@.subrange(fi as int, j as int), ':');
                        proof {
                            let t = s@.subrange(fi as int, j as int);
                            lemma_first_index_of(s@, ':');
                            assert(t[0] == ':');
                            assert(first_index_of(t, ':') == 0);
                            assert(split_on(t.skip(1), ':').len() >= 1);
                            assert(sp.len() >= 2);
                        }
                        assert(parts@.map_values(|x: String| x@).len() == m);
                        if m >= 2 {
                            for i in 1..m - 1
                                invariant
                                    m == parts@.len(),
                                    m >= 2,
                                    parts@.map_values(|x: String| x@) == sp,
                                    out@.len() == i - 1,
                                    forall|q: int| 0 <= q < out@.len() ==> (#[trigger] out@[q]).name@ == sp[q + 1]
                                        && out@[q].value is None && out@[q].check@.len() == 0 && out@[q].assert@.len() == 0,
                            {
                                out.push(Tag { name: parts[i].clone(), check: Vec::new(), assert: Vec::new(), value: None });
                            }
                        }
                        return out;
                    }
                },
                None => {},
            }
        }
        let mut lc: usize = n;
        assert(s@.take(n as int) =~= s@);
        while lc > 0 && s[lc - 1] != ':'
            invariant
                lc <= n,
                n == s@.len(),
                last_index_of(s@, ':') == last_index_of(s@.take(lc as int), ':'),
            decreases lc,
        {
            assert(s@.take(lc as int).drop_last() =~= s@.take(lc - 1));
            lc = lc - 1;
        }
        if lc == 0 {
            assert(s@.take(0) =~= Seq::<char>::empty());
            return out;
        }
        let colon = lc - 1;
        assert(s@.take(lc as int).drop_last() =~= s@.take(colon as int));
        let mut lead: usize = 0;
        while lead < n && s[lead] == ' '
            invariant
                lead <= n,
                n == s@.len(),
                crate::parser::skip_sp(s@, 0) == crate::parser::skip_sp(s@, lead as int),
            decreases n - lead,
        {
            lead = lead + 1;
        }
        let mut name: Vec<char> = Vec::new();
        if lead <= colon {
            let mut i = lead;
            while i < colon
                invariant
                    lead <= i <= colon,
                    colon < n,
                    n == s@.len(),
                    name@ == s@.subrange(lead as int, i as int),
                decreases colon - i,
            {
                name.push(s[i]);
                i = i + 1;
                assert(name@ =~= s@.subrange(lead as int, i as int));
            }
        } else {
            assert(name@ =~= Seq::<char>::empty());
        }
        let mut has_colon = false;
        let mut q: usize = 0;
        while q < name.len()
            invariant
                q <= name@.len(),
                has_colon == (count_char(name@.take(q as int), ':') > 0),
            decreases name@.len() - q,
        {
            assert(name@.take(q + 1).drop_last() =~= name@.take(q as int));
            if name[q] == ':' {
                has_colon = true;
            }
            q = q + 1;
        }
        assert(name@.take(name@.len() as int) =~= name@);
        if has_colon {
            return out;
        }
        let mut v = colon + 1;
        while v < n && s[v] == ' '
            invariant
                colon + 1 <= v <= n,
                n == s@.len(),
                crate::parser::skip_sp(s@, colon + 1) == crate::parser::skip_sp(s@, v as int),
            decreases n - v,
        {
            v = v + 1;
        }
        let mut value: Vec<char> = Vec::new();
        let mut i = v;
        while i < n
            invariant
                v <= i <= n,
                n == s@.len(),
                value@ == s@.subrange(v as int, i as int),
            decreases n - i,
        {
            value.push(s[i]);
            i = i + 1;
            assert(value@ =~= s@.subrange(v as int, i as int));
        }
        assert(value@ =~= s@.skip(v as int));
        out.push(Tag {
            name: string_from_chars(name.as_slice()),
            check: Vec::new(),
            assert: Vec::new(),
            value: Some(string_from_chars(value.as_slice())),
        });
        out
    }
}

} // verus!

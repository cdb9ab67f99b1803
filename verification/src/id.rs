use vstd::prelude::*;
use vstd::string::StrSliceExecFns;
use vstd::string::StringExecFns;

verus! {

/// Strict lexicographic order on character sequences, comparing code points,
/// starting at position `i`. This is the order Rust's `str` comparison uses
/// (UTF-8 byte order coincides with code-point order).
pub open spec fn lex_lt_from(a: Seq<char>, b: Seq<char>, i: int) -> bool
    decreases b.len() - i,
{
    if i < 0 || i >= b.len() {
        false
    } else if i >= a.len() {
        true
    } else if a[i] != b[i] {
        (a[i] as u32) < (b[i] as u32)
    } else {
        lex_lt_from(a, b, i + 1)
    }
}

/// Strict lexicographic order on character sequences.
pub open spec fn lex_lt(a: Seq<char>, b: Seq<char>) -> bool {
    lex_lt_from(a, b, 0)
}

/// An opaque identifier naming one rankable item: a short alphanumeric
/// token, optionally carrying a prefix. Identifiers are compared by their
/// textual form; that total order canonicalizes unordered pairs.
#[derive(Debug)]
pub struct Id(String);

impl View for Id {
    type V = Seq<char>;

    closed spec fn view(&self) -> Seq<char> {
        self.0@
    }
}

impl Clone for Id {
    fn clone(&self) -> (r: Self)
        ensures
            r@ == self@,
    {
        Id(self.0.clone())
    }
}

impl PartialEq for Id {
    fn eq(&self, other: &Self) -> (r: bool)
        ensures
            r == (self@ == other@),
    {
        self.0 == other.0
    }
}

impl vstd::std_specs::cmp::PartialEqSpecImpl for Id {
    open spec fn obeys_eq_spec() -> bool {
        true
    }

    open spec fn eq_spec(&self, other: &Self) -> bool {
        self@ == other@
    }
}

impl Eq for Id {
}

/// Relies on rand::random_range: a uniform sample lies within the
/// half-open range it was drawn from.
#[verifier::external_body]
fn random_below(n: usize) -> (r: usize)
    requires
        0 < n,
    ensures
        r < n,
{
    rand::random_range(0..n)
}

/// The number of characters drawn at random for a fresh identifier.
pub open spec fn random_id_len() -> int {
    7
}

impl Id {
    /// Generate a new random identifier with an optional prefix: the prefix
    /// (if any) followed by seven random alphanumeric characters.
    pub fn new(prefix: Option<&str>) -> (id: Id)
        ensures
            id@.len() == spec_prefix_len(prefix) + random_id_len(),
            (match prefix {
                Some(p) => id@.take(p@.len() as int) == p@,
                None => true,
            }),
    {
        let mut s: String = match prefix {
            Some(p) => p.to_owned(),
            None => String::new(),
        };
        let ghost base = s@.len() as int;
        let charset = "abcdefghijklmnopqrstuvwxyz0123456789";
        proof {
            reveal_strlit("abcdefghijklmnopqrstuvwxyz0123456789");
        }
        let mut k: usize = 0;
        while k < 7
            invariant
                k <= 7,
                s@.len() == base + k,
                charset@.len() == 36,
                base == spec_prefix_len(prefix),
                (match prefix {
                    Some(p) => s@.take(p@.len() as int) == p@,
                    None => true,
                }),
            decreases 7 - k,
        {
            let idx = random_below(36);
            let c = charset.substring_char(idx, idx + 1);
            s.append(c);
            proof {
                if let Some(p) = prefix {
                    assert(s@.take(p@.len() as int) =~= p@);
                }
            }
            k = k + 1;
        }
        Id(s)
    }

    /// Create an identifier from a string.
    pub fn from_string(s: String) -> (id: Id)
        ensures
            id@ == s@,
    {
        Id(s)
    }

    /// The string representation.
    pub fn as_str(&self) -> (r: &str)
        ensures
            r@ == self@,
    {
        self.0.as_str()
    }

    /// A fresh `String` holding the identifier's text.
    pub fn to_text(&self) -> (r: String)
        ensures
            r@ == self@,
    {
        self.0.clone()
    }

    /// Whether this identifier orders strictly before `other` in the
    /// lexicographic order used for canonical pair keys.
    pub fn lt(&self, other: &Id) -> (r: bool)
        ensures
            r == lex_lt(self@, other@),
    {
        str_lex_lt(self.0.as_str(), other.0.as_str())
    }
}

/// The length of the view of an optional prefix.
pub open spec fn spec_prefix_len(prefix: Option<&str>) -> int {
    match prefix {
        Some(p) => p@.len() as int,
        None => 0,
    }
}

/// The lexicographic order is total: distinct sequences are strictly
/// ordered one way or the other.
pub proof fn lemma_lex_lt_total(a: Seq<char>, b: Seq<char>)
    ensures
        a == b || lex_lt(a, b) || lex_lt(b, a),
{
    lemma_lex_lt_from_total(a, b, 0);
    if !lex_lt(a, b) && !lex_lt(b, a) {
        assert(a =~= b);
    }
}

proof fn lemma_lex_lt_from_total(a: Seq<char>, b: Seq<char>, i: int)
    requires
        0 <= i <= a.len(),
        i <= b.len(),
        forall|j: int| 0 <= j < i ==> a[j] == b[j],
    ensures
        (a.len() == b.len() && (forall|j: int| 0 <= j < a.len() ==> a[j] == b[j])) || lex_lt_from(
            a,
            b,
            i,
        ) || lex_lt_from(b, a, i),
    decreases a.len() - i,
{
    if i >= b.len() {
    } else if i >= a.len() {
    } else if a[i] != b[i] {
        if (a[i] as u32) == (b[i] as u32) {
            vstd::utf8::char_u32_cast(a[i], a[i] as u32);
            vstd::utf8::char_u32_cast(b[i], b[i] as u32);
        }
    } else {
        lemma_lex_lt_from_total(a, b, i + 1);
    }
}

/// The lexicographic order is asymmetric: no two sequences order strictly
/// before each other.
pub proof fn lemma_lex_lt_asymmetric(a: Seq<char>, b: Seq<char>)
    ensures
        !(lex_lt(a, b) && lex_lt(b, a)),
{
    lemma_lex_lt_from_asymmetric(a, b, 0);
}

proof fn lemma_lex_lt_from_asymmetric(a: Seq<char>, b: Seq<char>, i: int)
    requires
        0 <= i,
    ensures
        !(lex_lt_from(a, b, i) && lex_lt_from(b, a, i)),
    decreases a.len() + b.len() - 2 * i,
{
    if i < a.len() && i < b.len() && a[i] == b[i] {
        lemma_lex_lt_from_asymmetric(a, b, i + 1);
    }
}

/// The lexicographic order is irreflexive.
pub proof fn lemma_lex_lt_irrefl(a: Seq<char>)
    ensures
        !lex_lt(a, a),
{
    lemma_lex_lt_from_irrefl(a, 0);
}

proof fn lemma_lex_lt_from_irrefl(a: Seq<char>, i: int)
    requires
        0 <= i,
    ensures
        !lex_lt_from(a, a, i),
    decreases a.len() - i,
{
    if i < a.len() {
        lemma_lex_lt_from_irrefl(a, i + 1);
    }
}

/// Whether two strings hold the same characters.
pub fn str_eq(a: &str, b: &str) -> (r: bool)
    ensures
        r == (a@ == b@),
{
    let sa = a.to_owned();
    let sb = b.to_owned();
    sa == sb
}

/// `p` is a prefix of `s`.
pub open spec fn is_prefix(p: Seq<char>, s: Seq<char>) -> bool {
    p.len() <= s.len() && s.take(p.len() as int) == p
}

/// Whether `p` is a prefix of `s`.
pub fn str_starts_with(s: &str, p: &str) -> (r: bool)
    ensures
        r == is_prefix(p@, s@),
{
    let sl = s.unicode_len();
    let pl = p.unicode_len();
    if pl > sl {
        return false;
    }
    let mut i: usize = 0;
    while i < pl
        invariant
            sl == s@.len(),
            pl == p@.len(),
            pl <= sl,
            i <= pl,
            forall|j: int| 0 <= j < i ==> s@[j] == p@[j],
        decreases pl - i,
    {
        let cs = s.get_char(i);
        let cp = p.get_char(i);
        if cs != cp {
            proof {
                assert(s@.take(pl as int)[i as int] != p@[i as int]);
            }
            return false;
        }
        i = i + 1;
    }
    proof {
        assert(s@.take(pl as int) =~= p@);
    }
    true
}

/// Compare two strings in strict lexicographic code-point order.
pub fn str_lex_lt(a: &str, b: &str) -> (r: bool)
    ensures
        r == lex_lt(a@, b@),
{
    let a_len = a.unicode_len();
    let b_len = b.unicode_len();
    let mut i: usize = 0;
    while i < a_len && i < b_len
        invariant
            a_len == a@.len(),
            b_len == b@.len(),
            i <= a_len,
            i <= b_len,
            lex_lt(a@, b@) == lex_lt_from(a@, b@, i as int),
        decreases a_len - i,
    {
        let ca = a.get_char(i);
        let cb = b.get_char(i);
        if ca != cb {
            return (ca as u32) < (cb as u32);
        }
        i = i + 1;
    }
    a_len < b_len
}

} // verus!

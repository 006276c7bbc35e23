use core::cmp::Ordering;
use vstd::prelude::*;

verus! {

/// Compares two byte strings of the same length from the byte at `i` on:
/// the first differing byte decides.
pub open spec fn lex_cmp_from(a: Seq<u8>, b: Seq<u8>, i: int) -> Ordering
    decreases a.len() - i,
{
    if i < 0 || i >= a.len() || i >= b.len() {
        Ordering::Equal
    } else if a[i] < b[i] {
        Ordering::Less
    } else if a[i] > b[i] {
        Ordering::Greater
    } else {
        lex_cmp_from(a, b, i + 1)
    }
}

/// The order of byte slices: a shorter slice comes first whatever its bytes;
/// slices of equal length compare byte by byte.
pub open spec fn bytes_cmp(a: Seq<u8>, b: Seq<u8>) -> Ordering {
    if a.len() < b.len() {
        Ordering::Less
    } else if a.len() > b.len() {
        Ordering::Greater
    } else {
        lex_cmp_from(a, b, 0)
    }
}

/// An owned, immutable buffer of bytes.
pub struct Slice {
    data: Vec<u8>,
}

impl View for Slice {
    type V = Seq<u8>;

    closed spec fn view(&self) -> Seq<u8> {
        self.data@
    }
}

impl Slice {
    /// The slice of length zero.
    pub fn empty() -> (r: Slice)
        ensures
            r@ == Seq::<u8>::empty(),
    {
        Slice { data: Vec::new() }
    }

    /// The number of bytes held.
    pub fn size(&self) -> (r: usize)
        ensures
            r == self@.len(),
    {
        self.data.len()
    }

    /// The bytes, as an owned vector.
    pub fn into_bytes(self) -> (r: Vec<u8>)
        ensures
            r@ == self@,
    {
        self.data
    }

    /// Compares two slices by `bytes_cmp`.
    pub fn compare(&self, other: &Slice) -> (r: Ordering)
        ensures
            r == bytes_cmp(self@, other@),
    {
        let n = self.data.len();
        if n < other.data.len() {
            return Ordering::Less;
        } else if n > other.data.len() {
            return Ordering::Greater;
        }
        let mut i: usize = 0;
        while i < n
            invariant
                n == self@.len(),
                n == other@.len(),
                0 <= i <= n,
                lex_cmp_from(self@, other@, 0) == lex_cmp_from(self@, other@, i as int),
            decreases n - i,
        {
            let x = self.data[i];
            let y = other.data[i];
            if x < y {
                return Ordering::Less;
            } else if x > y {
                return Ordering::Greater;
            }
            i = i + 1;
        }
        Ordering::Equal
    }
}


impl Clone for Slice {
    /// A fresh buffer holding the same bytes.
    fn clone(&self) -> (r: Slice)
        ensures
            r@ == self@,
    {
        let data = self.data.clone();
        proof {
            assert(data@ =~= self.data@);
        }
        Slice { data }
    }
}

impl PartialEq for Slice {
    fn eq(&self, other: &Slice) -> (r: bool) {
        proof {
            lemma_bytes_cmp_equal(self@, other@);
        }
        match self.compare(other) {
            Ordering::Equal => true,
            _ => false,
        }
    }
}

impl vstd::std_specs::cmp::PartialEqSpecImpl for Slice {
    open spec fn obeys_eq_spec() -> bool {
        true
    }

    open spec fn eq_spec(&self, other: &Slice) -> bool {
        self@ == other@
    }
}

impl PartialOrd for Slice {
    fn partial_cmp(&self, other: &Slice) -> (r: Option<Ordering>) {
        Some(self.compare(other))
    }
}

impl vstd::std_specs::cmp::PartialOrdSpecImpl for Slice {
    open spec fn obeys_partial_cmp_spec() -> bool {
        true
    }

    open spec fn partial_cmp_spec(&self, other: &Slice) -> Option<Ordering> {
        Some(bytes_cmp(self@, other@))
    }
}

impl From<Vec<u8>> for Slice {
    /// Takes ownership of the vector's bytes.
    fn from(vec: Vec<u8>) -> (r: Slice) {
        Slice { data: vec }
    }
}

impl vstd::std_specs::convert::FromSpecImpl<Vec<u8>> for Slice {
    open spec fn obeys_from_spec() -> bool {
        true
    }

    closed spec fn from_spec(vec: Vec<u8>) -> Slice {
        Slice { data: vec }
    }
}

/// What `Slice::from` makes of a vector: a slice of the same bytes.
pub broadcast proof fn lemma_from_vec_view(vec: Vec<u8>)
    ensures
        #[trigger] <Slice as vstd::std_specs::convert::FromSpec<Vec<u8>>>::from_spec(vec)@ == vec@,
{
}

impl From<String> for Slice {
    /// Takes the UTF-8 bytes of the string.
    fn from(s: String) -> (r: Slice)
        ensures
            r@ == vstd::utf8::encode_utf8(s@),
    {
        let b = s.as_str().as_bytes();
        let mut data: Vec<u8> = Vec::new();
        let n = b.len();
        let mut i: usize = 0;
        while i < n
            invariant
                n == b@.len(),
                i <= n,
                data@ == b@.subrange(0, i as int),
            decreases n - i,
        {
            data.push(b[i]);
            i = i + 1;
            proof {
                assert(data@ =~= b@.subrange(0, i as int));
            }
        }
        proof {
            assert(b@.subrange(0, n as int) =~= b@);
        }
        Slice { data }
    }
}

/// What `from` makes of a string is stated on `from` itself, over the string's
/// UTF-8 encoding, which no spec function of a `String` value gives.
impl vstd::std_specs::convert::FromSpecImpl<String> for Slice {
    open spec fn obeys_from_spec() -> bool {
        false
    }

    open spec fn from_spec(s: String) -> Slice {
        arbitrary()
    }
}

proof fn lemma_lex_equal(a: Seq<u8>, b: Seq<u8>, i: int)
    requires
        a.len() == b.len(),
        0 <= i <= a.len(),
    ensures
        lex_cmp_from(a, b, i) == Ordering::Equal <==> a.subrange(i, a.len() as int)
            == b.subrange(i, b.len() as int),
    decreases a.len() - i,
{
    if i < a.len() {
        lemma_lex_equal(a, b, i + 1);
        let sa = a.subrange(i, a.len() as int);
        let sb = b.subrange(i, b.len() as int);
        if sa == sb {
            assert(sa[0] == sb[0]);
            assert(a.subrange(i + 1, a.len() as int) =~= sa.subrange(1, sa.len() as int));
            assert(b.subrange(i + 1, b.len() as int) =~= sb.subrange(1, sb.len() as int));
        }
        if a[i] == b[i] && a.subrange(i + 1, a.len() as int) == b.subrange(i + 1, b.len() as int) {
            assert(sa =~= sb) by {
                assert forall|j: int| 0 <= j < sa.len() implies sa[j] == sb[j] by {
                    if j > 0 {
                        assert(sa[j] == a.subrange(i + 1, a.len() as int)[j - 1]);
                        assert(sb[j] == b.subrange(i + 1, b.len() as int)[j - 1]);
                    }
                }
            }
        }
    } else {
        assert(a.subrange(i, a.len() as int) =~= b.subrange(i, b.len() as int));
    }
}

proof fn lemma_lex_antisymmetric(a: Seq<u8>, b: Seq<u8>, i: int)
    requires
        a.len() == b.len(),
    ensures
        lex_cmp_from(a, b, i) == Ordering::Less <==> lex_cmp_from(b, a, i) == Ordering::Greater,
    decreases a.len() - i,
{
    if 0 <= i < a.len() {
        lemma_lex_antisymmetric(a, b, i + 1);
    }
}

proof fn lemma_lex_transitive(a: Seq<u8>, b: Seq<u8>, c: Seq<u8>, i: int)
    requires
        a.len() == b.len(),
        b.len() == c.len(),
        lex_cmp_from(a, b, i) == Ordering::Less,
        lex_cmp_from(b, c, i) == Ordering::Less,
    ensures
        lex_cmp_from(a, c, i) == Ordering::Less,
    decreases a.len() - i,
{
    if 0 <= i < a.len() && a[i] == b[i] && b[i] == c[i] {
        lemma_lex_transitive(a, b, c, i + 1);
    }
}

/// Two slices compare equal exactly when they hold the same bytes.
pub proof fn lemma_bytes_cmp_equal(a: Seq<u8>, b: Seq<u8>)
    ensures
        bytes_cmp(a, b) == Ordering::Equal <==> a == b,
{
    if a.len() == b.len() {
        lemma_lex_equal(a, b, 0);
        assert(a.subrange(0, a.len() as int) =~= a);
        assert(b.subrange(0, b.len() as int) =~= b);
    }
}

/// `a` comes before `b` exactly when `b` comes after `a`.
pub proof fn lemma_bytes_cmp_antisymmetric(a: Seq<u8>, b: Seq<u8>)
    ensures
        bytes_cmp(a, b) == Ordering::Less <==> bytes_cmp(b, a) == Ordering::Greater,
{
    if a.len() == b.len() {
        lemma_lex_antisymmetric(a, b, 0);
    }
}

/// The order of slices is transitive.
pub proof fn lemma_bytes_cmp_transitive(a: Seq<u8>, b: Seq<u8>, c: Seq<u8>)
    requires
        bytes_cmp(a, b) == Ordering::Less,
        bytes_cmp(b, c) == Ordering::Less,
    ensures
        bytes_cmp(a, c) == Ordering::Less,
{
    if a.len() == b.len() && b.len() == c.len() {
        lemma_lex_transitive(a, b, c, 0);
    }
}

} // verus!

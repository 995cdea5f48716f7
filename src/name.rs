//! Domain names: dotted labels, compared without regard to ASCII case.
use vstd::prelude::*;

verus! {

/// The byte `.` that separates labels in the presentation form of a name.
pub const DOT: u8 = 46;

/// Longest label the wire format allows.
pub const MAX_LABEL_LEN: usize = 63;

/// Longest name, in bytes of its wire form.
pub const MAX_NAME_LEN: usize = 255;

/// A domain name, held as its labels (without the final empty root label).
pub struct Name {
    pub labels: Vec<Vec<u8>>,
}

/// Why a dotted string is not a domain name.
#[derive(Clone, Copy, Debug, PartialEq, Eq, Structural)]
pub enum NameError {
    /// A label is empty (two dots in a row, or a dot at either end).
    EmptyLabel,
    /// A label is longer than 63 bytes.
    LabelTooLong,
    /// The wire form of the name is longer than 255 bytes.
    NameTooLong,
}

impl View for Name {
    type V = Seq<Seq<u8>>;

    open spec fn view(&self) -> Seq<Seq<u8>> {
        self.labels@.map_values(|l: Vec<u8>| l@)
    }
}

/// Position of the last dot in `s`, or -1 when it has none.
pub open spec fn last_dot(s: Seq<u8>) -> int
    decreases s.len(),
{
    if s.len() == 0 {
        -1
    } else if s.last() == DOT {
        s.len() - 1
    } else {
        last_dot(s.drop_last())
    }
}

/// The labels of a dotted string, split at every dot.
pub open spec fn labels_of(s: Seq<u8>) -> Seq<Seq<u8>>
    decreases s.len(),
{
    let d = last_dot(s);
    if d < 0 || d >= s.len() {
        seq![s]
    } else {
        labels_of(s.subrange(0, d)).push(s.subrange(d + 1, s.len() as int))
    }
}

/// Bytes that the labels take on the wire: a length byte and the bytes of each,
/// and the final zero byte.
pub open spec fn wire_len(ls: Seq<Seq<u8>>) -> int
    decreases ls.len(),
{
    if ls.len() == 0 {
        1
    } else {
        wire_len(ls.drop_last()) + 1 + ls.last().len()
    }
}

/// A well-formed label: one to 63 bytes, no dot.
pub open spec fn valid_label(l: Seq<u8>) -> bool {
    1 <= l.len() <= MAX_LABEL_LEN && forall|k: int| 0 <= k < l.len() ==> l[k] != DOT
}

/// No label holds a dot.
pub open spec fn dot_free(ls: Seq<Seq<u8>>) -> bool {
    forall|i: int, k: int| 0 <= i < ls.len() && 0 <= k < ls[i].len() ==> ls[i][k] != DOT
}

/// A well-formed name: at least one label, each well-formed, at most 255 bytes on the wire.
pub open spec fn valid_labels(ls: Seq<Seq<u8>>) -> bool {
    &&& ls.len() >= 1
    &&& forall|i: int| 0 <= i < ls.len() ==> valid_label(#[trigger] ls[i])
    &&& wire_len(ls) <= MAX_NAME_LEN
}

/// ASCII lower case of one byte.
pub open spec fn lower(b: u8) -> u8 {
    if 65 <= b <= 90 {
        (b + 32) as u8
    } else {
        b
    }
}

/// A label in ASCII lower case.
pub open spec fn lower_label(l: Seq<u8>) -> Seq<u8> {
    l.map_values(|b: u8| lower(b))
}

/// A name in ASCII lower case: the form in which names are compared.
pub open spec fn lower_name(ls: Seq<Seq<u8>>) -> Seq<Seq<u8>> {
    ls.map_values(|l: Seq<u8>| lower_label(l))
}

/// Two names are the same name when they agree but for ASCII case.
pub open spec fn same_name(a: Seq<Seq<u8>>, b: Seq<Seq<u8>>) -> bool {
    lower_name(a) == lower_name(b)
}

/// Which error a name with the given labels gets, if any.
pub open spec fn name_error(ls: Seq<Seq<u8>>) -> Option<NameError> {
    if exists|i: int| 0 <= i < ls.len() && (#[trigger] ls[i]).len() == 0 {
        Some(NameError::EmptyLabel)
    } else if exists|i: int| 0 <= i < ls.len() && (#[trigger] ls[i]).len() > MAX_LABEL_LEN {
        Some(NameError::LabelTooLong)
    } else if wire_len(ls) > MAX_NAME_LEN {
        Some(NameError::NameTooLong)
    } else {
        None
    }
}

proof fn lemma_last_dot_range(s: Seq<u8>)
    ensures
        -1 <= last_dot(s) < s.len(),
        last_dot(s) >= 0 ==> s[last_dot(s)] == DOT,
        forall|k: int| last_dot(s) < k < s.len() ==> s[k] != DOT,
    decreases s.len(),
{
    if s.len() > 0 && s.last() != DOT {
        let t = s.drop_last();
        lemma_last_dot_range(t);
        assert forall|k: int| last_dot(s) < k < s.len() implies s[k] != DOT by {
            if k < t.len() {
                assert(s[k] == t[k]);
            }
        }
    }
}

proof fn lemma_labels_no_dot(s: Seq<u8>)
    ensures
        labels_of(s).len() >= 1,
        forall|i: int, k: int|
            0 <= i < labels_of(s).len() && 0 <= k < labels_of(s)[i].len() ==> labels_of(s)[i][k]
                != DOT,
    decreases s.len(),
{
    lemma_last_dot_range(s);
    let d = last_dot(s);
    if d >= 0 {
        lemma_labels_no_dot(s.subrange(0, d));
        let ls = labels_of(s.subrange(0, d));
        assert forall|i: int, k: int|
            0 <= i < labels_of(s).len() && 0 <= k < labels_of(s)[i].len() implies labels_of(
            s,
        )[i][k] != DOT by {
            if i < ls.len() {
                assert(labels_of(s)[i] == ls[i]);
            } else {
                assert(labels_of(s)[i][k] == s[d + 1 + k]);
            }
        }
    }
}

proof fn lemma_wire_len_positive(ls: Seq<Seq<u8>>)
    ensures
        wire_len(ls) >= 1 + ls.len(),
    decreases ls.len(),
{
    if ls.len() > 0 {
        lemma_wire_len_positive(ls.drop_last());
    }
}

impl Name {
    /// The name in its own terms is well formed.
    pub open spec fn wf(&self) -> bool {
        valid_labels(self@)
    }

    /// Splits a dotted string (`_http._tcp.local`) into a name.
    pub fn from_bytes(s: &[u8]) -> (r: Result<Name, NameError>)
        ensures
            match r {
                Ok(n) => n@ == labels_of(s@) && n.wf() && name_error(labels_of(s@)).is_none(),
                Err(e) => name_error(labels_of(s@)) == Some(e),
            },
    {
        let mut labels: Vec<Vec<u8>> = Vec::new();
        let mut cur: Vec<u8> = Vec::new();
        let mut i: usize = 0;
        proof {
            let e = s@.subrange(0, 0);
            assert(e =~= Seq::<u8>::empty());
            assert(last_dot(e) == -1);
            assert(labels_of(e) == seq![e]);
            assert(labels@.map_values(|l: Vec<u8>| l@).push(cur@) =~= labels_of(e));
        }
        while i < s.len()
            invariant
                0 <= i <= s@.len(),
                labels@.map_values(|l: Vec<u8>| l@).push(cur@) == labels_of(s@.subrange(0, i as int)),
            decreases s@.len() - i,
        {
            let b = s[i];
            let ghost p = s@.subrange(0, i as int);
            let ghost q = s@.subrange(0, i + 1);
            let ghost before = labels@.map_values(|l: Vec<u8>| l@);
            let ghost cur0 = cur@;
            proof {
                assert(q.drop_last() == p);
                assert(q.last() == b);
                lemma_last_dot_range(p);
            }
            if b == DOT {
                let done = cur;
                labels.push(done);
                cur = Vec::new();
                proof {
                    assert(q.subrange(0, i as int) == p);
                    assert(q.subrange(i + 1, q.len() as int) =~= Seq::<u8>::empty());
                    assert(labels@.map_values(|l: Vec<u8>| l@) =~= before.push(cur0));
                    assert(labels@.map_values(|l: Vec<u8>| l@).push(cur@) =~= labels_of(q));
                }
            } else {
                cur.push(b);
                proof {
                    let d = last_dot(p);
                    assert(last_dot(q) == d);
                    assert(q =~= p.push(b));
                    assert(cur@ =~= cur0.push(b));
                    assert(labels@.map_values(|l: Vec<u8>| l@) =~= before);
                    assert(before.push(cur0).drop_last() =~= before);
                    if d >= 0 {
                        assert(q.subrange(0, d) =~= p.subrange(0, d));
                        assert(q.subrange(d + 1, q.len() as int) =~= p.subrange(d + 1, p.len() as int).push(b));
                        assert(labels_of(p).drop_last() =~= labels_of(p.subrange(0, d)));
                        assert(before =~= labels_of(p.subrange(0, d)));
                        assert(cur0 == labels_of(p).last());
                        assert(labels_of(q) == labels_of(q.subrange(0, d)).push(q.subrange(d + 1, q.len() as int)));
                    } else {
                        assert(labels_of(p) == seq![p]);
                        assert(before.len() == 0);
                        assert(before.push(cur0)[0] == cur0);
                        assert(cur0 == p);
                        assert(labels_of(q) == seq![q]);
                    }
                    assert(labels@.map_values(|l: Vec<u8>| l@).push(cur@) =~= labels_of(q));
                }
            }
            i = i + 1;
        }
        labels.push(cur);
        assert(s@.subrange(0, s@.len() as int) == s@);
        assert(labels@.map_values(|l: Vec<u8>| l@) == labels_of(s@));
        let n = Name { labels };
        match n.find_error() {
            None => {
                proof {
                    lemma_labels_no_dot(s@);
                }
                Ok(n)
            },
            Some(e) => Err(e),
        }
    }

    /// Finds what, if anything, keeps the labels from forming a name.
    fn find_error(&self) -> (r: Option<NameError>)
        ensures
            r == name_error(self@),
    {
        let n = self.labels.len();
        let mut i: usize = 0;
        let mut empty = false;
        let mut long = false;
        let mut total: usize = 1;
        while i < n
            invariant
                n == self.labels@.len(),
                0 <= i <= n,
                empty == exists|j: int| 0 <= j < i && (#[trigger] self@[j]).len() == 0,
                long == exists|j: int| 0 <= j < i && (#[trigger] self@[j]).len() > MAX_LABEL_LEN,
                total == if wire_len(self@.subrange(0, i as int)) > 256 { 256 } else {
                    wire_len(self@.subrange(0, i as int))
                },
            decreases n - i,
        {
            let len = self.labels[i].len();
            assert(self@[i as int] == self.labels@[i as int]@);
            assert(self@.subrange(0, i + 1).drop_last() == self@.subrange(0, i as int));
            if len == 0 {
                empty = true;
            }
            if len > MAX_LABEL_LEN {
                long = true;
            }
            if len >= 256 - total {
                total = 256;
                proof {
                    lemma_wire_len_positive(self@.subrange(0, i as int));
                }
            } else {
                total = total + 1 + len;
            }
            i = i + 1;
        }
        assert(self@.subrange(0, n as int) == self@);
        if empty {
            Some(NameError::EmptyLabel)
        } else if long {
            Some(NameError::LabelTooLong)
        } else if total > MAX_NAME_LEN {
            Some(NameError::NameTooLong)
        } else {
            None
        }
    }

    /// Labels free of dots form a well-formed name.
    pub fn is_well_formed(&self) -> (r: bool)
        requires
            dot_free(self@),
        ensures
            r == self.wf(),
    {
        if self.labels.len() == 0 {
            return false;
        }
        let r = self.find_error().is_none();
        proof {
            if r {
                assert forall|i: int| 0 <= i < self@.len() implies valid_label(#[trigger] self@[i]) by {
                    assert(self@[i].len() != 0);
                    assert(!(self@[i].len() > MAX_LABEL_LEN));
                }
            }
        }
        r
    }

    /// Whether the labels form a well-formed name.
    pub fn validate(&self) -> (r: bool)
        ensures
            r == self.wf(),
    {
        let mut i: usize = 0;
        while i < self.labels.len()
            invariant
                0 <= i <= self@.len(),
                forall|j: int, k: int| 0 <= j < i && 0 <= k < self@[j].len() ==> self@[j][k] != DOT,
            decreases self@.len() - i,
        {
            let l = &self.labels[i];
            assert(self@[i as int] == l@);
            let mut k: usize = 0;
            while k < l.len()
                invariant
                    0 <= i < self@.len(),
                    l@ == self@[i as int],
                    forall|j: int, m: int| 0 <= j < i && 0 <= m < self@[j].len() ==> self@[j][m] != DOT,
                    0 <= k <= l@.len(),
                    forall|m: int| 0 <= m < k ==> l@[m] != DOT,
                decreases l@.len() - k,
            {
                if l[k] == DOT {
                    assert(!valid_label(self@[i as int]));
                    assert(!valid_labels(self@));
                    return false;
                }
                k = k + 1;
            }
            i = i + 1;
        }
        self.is_well_formed()
    }

    /// Compares two names as DNS does: label by label, ignoring ASCII case.
    pub fn same_as(&self, other: &Name) -> (r: bool)
        ensures
            r == same_name(self@, other@),
    {
        let n = self.labels.len();
        if n != other.labels.len() {
            proof {
                assert(lower_name(self@).len() != lower_name(other@).len());
            }
            return false;
        }
        let mut i: usize = 0;
        while i < n
            invariant
                n == self@.len(),
                n == other@.len(),
                0 <= i <= n,
                forall|j: int| 0 <= j < i ==> lower_label(self@[j]) == lower_label(other@[j]),
            decreases n - i,
        {
            assert(self@[i as int] == self.labels@[i as int]@);
            assert(other@[i as int] == other.labels@[i as int]@);
            if !same_label(&self.labels[i], &other.labels[i]) {
                proof {
                    assert(lower_name(self@)[i as int] != lower_name(other@)[i as int]);
                }
                return false;
            }
            i = i + 1;
        }
        assert(lower_name(self@) =~= lower_name(other@));
        true
    }

    /// An equal copy of the name.
    pub fn duplicate(&self) -> (r: Name)
        ensures
            r@ == self@,
    {
        let mut labels: Vec<Vec<u8>> = Vec::new();
        let mut i: usize = 0;
        while i < self.labels.len()
            invariant
                0 <= i <= self@.len(),
                labels@.map_values(|l: Vec<u8>| l@) =~= self@.subrange(0, i as int),
            decreases self@.len() - i,
        {
            let l = copy_bytes(&self.labels[i]);
            let ghost before = labels@.map_values(|l: Vec<u8>| l@);
            labels.push(l);
            proof {
                assert(self@[i as int] == self.labels@[i as int]@);
                assert(labels@.map_values(|l: Vec<u8>| l@) =~= before.push(l@));
                assert(self@.subrange(0, i + 1) =~= self@.subrange(0, i as int).push(self@[i as int]));
            }
            i = i + 1;
        }
        assert(self@.subrange(0, self@.len() as int) == self@);
        Name { labels }
    }
}

/// ASCII lower case of one byte.
pub fn lower_byte(b: u8) -> (r: u8)
    ensures
        r == lower(b),
{
    if 65 <= b && b <= 90 {
        b + 32
    } else {
        b
    }
}

fn same_label(a: &Vec<u8>, b: &Vec<u8>) -> (r: bool)
    ensures
        r == (lower_label(a@) == lower_label(b@)),
{
    if a.len() != b.len() {
        proof {
            assert(lower_label(a@).len() != lower_label(b@).len());
        }
        return false;
    }
    let mut k: usize = 0;
    while k < a.len()
        invariant
            a@.len() == b@.len(),
            0 <= k <= a@.len(),
            forall|j: int| 0 <= j < k ==> lower(a@[j]) == lower(b@[j]),
        decreases a@.len() - k,
    {
        if lower_byte(a[k]) != lower_byte(b[k]) {
            proof {
                assert(lower_label(a@)[k as int] != lower_label(b@)[k as int]);
            }
            return false;
        }
        k = k + 1;
    }
    assert(lower_label(a@) =~= lower_label(b@));
    true
}

/// A copy of a byte string.
pub fn copy_bytes(v: &Vec<u8>) -> (r: Vec<u8>)
    ensures
        r@ == v@,
{
    let mut r: Vec<u8> = Vec::new();
    let mut i: usize = 0;
    while i < v.len()
        invariant
            0 <= i <= v@.len(),
            r@ =~= v@.subrange(0, i as int),
        decreases v@.len() - i,
    {
        r.push(v[i]);
        i = i + 1;
    }
    assert(v@.subrange(0, v@.len() as int) == v@);
    r
}

} // verus!

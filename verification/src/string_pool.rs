use vstd::prelude::*;

verus! {

/// Where `s` stands in `pool` after interning it: its index, and the pool,
/// which gains `s` at its end when `s` was not yet there.
pub open spec fn intern(pool: Seq<Seq<char>>, s: Seq<char>) -> (int, Seq<Seq<char>>) {
    if pool.contains(s) {
        (pool.index_of(s), pool)
    } else {
        (pool.len() as int, pool.push(s))
    }
}

/// An interner: each distinct string gets the index at which it was first
/// seen, and keeps it.
#[derive(Debug, Clone)]
pub struct StringPool {
    buf: Vec<String>,
}

impl View for StringPool {
    type V = Seq<Seq<char>>;

    closed spec fn view(&self) -> Seq<Seq<char>> {
        self.buf@.map_values(|s: String| s@)
    }
}

impl StringPool {
    /// No string is stored twice.
    pub open spec fn wf(&self) -> bool {
        self@.no_duplicates()
    }

    /// A pool holds at most `usize::MAX` strings.
    pub proof fn lemma_len_bound(&self)
        ensures
            self@.len() <= usize::MAX,
    {
        assert(self.buf.len() == self.buf@.len());
    }

    pub fn new() -> (res: Self)
        ensures
            res@ == Seq::<Seq<char>>::empty(),
            res.wf(),
    {
        let res = Self { buf: Vec::new() };
        assert(res@ =~= Seq::<Seq<char>>::empty());
        res
    }

    /// The number of strings in the pool.
    pub fn len(&self) -> (res: usize)
        ensures
            res == self@.len(),
    {
        self.buf.len()
    }

    /// The index of `s`, which is added at the end of the pool when it is new.
    pub fn get_index(&mut self, s: &str) -> (res: usize)
        requires
            old(self).wf(),
        ensures
            intern(old(self)@, s@) == (res as int, final(self)@),
            final(self).wf(),
            final(self)@[res as int] == s@,
            res < final(self)@.len(),
            old(self)@.is_prefix_of(final(self)@),
    {
        proof {
            lemma_intern(self@, s@);
        }
        let owned = s.to_owned();
        let n = self.buf.len();
        let mut i: usize = 0;
        while i < n
            invariant
                n == self.buf.len(),
                i <= n,
                self@ == old(self)@,
                self.wf(),
                owned@ == s@,
                forall|j: int| 0 <= j < i ==> self@[j] != s@,
            decreases n - i,
        {
            if self.buf[i] == owned {
                proof {
                    assert(self@[i as int] == s@);
                    assert(self@.contains(s@));
                    let k = self@.index_of(s@);
                    assert(self@[k] == s@);
                    assert(k == i);
                }
                return i;
            }
            i = i + 1;
        }
        proof {
            assert(!self@.contains(s@));
        }
        self.buf.push(owned);
        proof {
            assert(self@ =~= old(self)@.push(s@));
        }
        n
    }

    /// The string with the given index.
    pub fn get_str(&self, index: usize) -> (res: &str)
        requires
            index < self@.len(),
        ensures
            res@ == self@[index as int],
    {
        self.buf[index].as_str()
    }
}

/// Interning a string into a pool without duplicates gives an index at which
/// the new pool holds that string; the new pool has no duplicates and begins
/// with the old one.
pub proof fn lemma_intern(pool: Seq<Seq<char>>, s: Seq<char>)
    requires
        pool.no_duplicates(),
    ensures
        0 <= intern(pool, s).0 < intern(pool, s).1.len(),
        intern(pool, s).1[intern(pool, s).0] == s,
        intern(pool, s).1.no_duplicates(),
        pool.is_prefix_of(intern(pool, s).1),
        intern(pool, s).1.len() <= pool.len() + 1,
{
    if pool.contains(s) {
        let k = pool.index_of(s);
        assert(pool[k] == s);
    } else {
        let p = pool.push(s);
        assert forall|i: int, j: int|
            0 <= i < p.len() && 0 <= j < p.len() && i != j implies p[i] != p[j] by {
            if i == pool.len() as int {
                assert(!pool.contains(s));
                assert(pool[j] == p[j]);
            } else if j == pool.len() as int {
                assert(pool[i] == p[i]);
            }
        }
        assert(pool.is_prefix_of(p)) by {
            assert(p.subrange(0, pool.len() as int) =~= pool);
        }
    }
}

/// Interning the same string twice gives the same index the second time and
/// leaves the pool as the first time left it.
pub proof fn lemma_intern_idempotent(pool: Seq<Seq<char>>, s: Seq<char>)
    requires
        pool.no_duplicates(),
    ensures
        intern(intern(pool, s).1, s) == intern(pool, s),
{
    lemma_intern(pool, s);
    let (i, p) = intern(pool, s);
    assert(p.contains(s)) by {
        assert(p[i] == s);
    }
    let k = p.index_of(s);
    assert(p[k] == s);
}

/// Two strings interned one after the other get the same index exactly when
/// they are the same string.
pub proof fn lemma_intern_distinct(pool: Seq<Seq<char>>, s: Seq<char>, t: Seq<char>)
    requires
        pool.no_duplicates(),
    ensures
        (intern(intern(pool, s).1, t).0 == intern(pool, s).0) <==> s == t,
{
    lemma_intern(pool, s);
    let (i, p) = intern(pool, s);
    lemma_intern(p, t);
    if s == t {
        lemma_intern_idempotent(pool, s);
    } else {
        let (j, q) = intern(p, t);
        assert(q[j] == t);
        assert(p.is_prefix_of(q));
        assert(q[i] == p[i]);
    }
}

/// Interning never changes what an index already stands for.
pub proof fn lemma_intern_keeps(pool: Seq<Seq<char>>, s: Seq<char>, i: int)
    requires
        pool.no_duplicates(),
        0 <= i < pool.len(),
    ensures
        intern(pool, s).1[i] == pool[i],
{
    lemma_intern(pool, s);
}

} // verus!

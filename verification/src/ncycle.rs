//! A cursor that walks a sequence several times over.

use vstd::prelude::*;

verus! {

/// `s` written `times` times in a row.
pub open spec fn repeated<T>(s: Seq<T>, times: nat) -> Seq<T>
    decreases times,
{
    if times == 0 {
        Seq::empty()
    } else {
        s + repeated(s, (times - 1) as nat)
    }
}

/// The length of `repeated(s, times)` is `times` lengths of `s`, and its item
/// at index `i` is the item of `s` at `i` modulo the length of `s`.
pub proof fn lemma_repeated_index<T>(s: Seq<T>, times: nat, i: int)
    requires
        0 <= i < times * s.len(),
    ensures
        repeated(s, times).len() == times * s.len(),
        s.len() > 0,
        repeated(s, times)[i] == s[i % (s.len() as int)],
    decreases times,
{
    lemma_repeated_len(s, times);
    let n = s.len() as int;
    if i < n {
        assert(i % n == i) by (nonlinear_arith)
            requires
                0 <= i < n,
        ;
    } else {
        let less = (times - 1) as nat;
        assert(less * n == times * n - n) by (nonlinear_arith)
            requires
                times == less + 1,
        ;
        lemma_repeated_index(s, less, i - n);
        assert((i - n) % n == i % n) by (nonlinear_arith)
            requires
                n > 0,
        ;
    }
}

/// `repeated(s, times)` holds `times` lengths of `s`.
pub proof fn lemma_repeated_len<T>(s: Seq<T>, times: nat)
    ensures
        repeated(s, times).len() == times * s.len(),
    decreases times,
{
    if times > 0 {
        let less = (times - 1) as nat;
        lemma_repeated_len(s, less);
        assert(times * s.len() == s.len() + less * s.len()) by (nonlinear_arith)
            requires
                times == less + 1,
        ;
    } else {
        assert(times * s.len() == 0) by (nonlinear_arith)
            requires
                times == 0,
        ;
    }
}

/// A cursor that walks a sequence from its start to its end, and then again
/// from the start, as many more times as it was told.
pub struct Ncycles<'a, T> {
    orig: &'a [T],
    pos: usize,
    count: usize,
}

impl<'a, T> Ncycles<'a, T> {
    #[verifier::type_invariant]
    spec fn in_range(self) -> bool {
        self.pos <= self.orig@.len()
    }

    /// The items that are still to come, in the order in which `next` hands
    /// them out.
    pub closed spec fn remaining(self) -> Seq<T> {
        self.orig@.subrange(self.pos as int, self.orig@.len() as int) + repeated(
            self.orig@,
            self.count as nat,
        )
    }

}

impl<'a, T: Copy> Ncycles<'a, T> {
    /// A cursor at the start of `iter` that walks it once and then `count`
    /// more times.
    pub fn new(iter: &'a [T], count: usize) -> (cycles: Self)
        ensures
            cycles.remaining() == repeated(iter@, (count + 1) as nat),
    {
        Ncycles { orig: iter, pos: 0, count }
    }

    /// Hands out the next item, or `None` when every walk is done.
    pub fn next(&mut self) -> (item: Option<T>)
        ensures
            old(self).remaining().len() == 0 ==> item is None && final(self).remaining().len()
                == 0,
            old(self).remaining().len() > 0 ==> item == Some(old(self).remaining()[0])
                && final(self).remaining() == old(self).remaining().drop_first(),
    {
        proof {
            use_type_invariant(&*self);
            lemma_repeated_len(self.orig@, self.count as nat);
        }
        if self.pos < self.orig.len() {
            let item = self.orig[self.pos];
            self.pos += 1;
            Some(item)
        } else if self.count == 0 || self.orig.len() == 0 {
            None
        } else {
            let item = self.orig[0];
            self.count -= 1;
            self.pos = 1;
            Some(item)
        }
    }
}

} // verus!

use vstd::prelude::*;

verus! {

/// A ring of the last `N` values written.
pub struct HistoryBuffer<T, const N: usize> {
    data: [T; N],
    write_at: usize,
    filled: bool,
    written: Ghost<Seq<T>>,
}

/// Another name for `HistoryBuffer`: a ring of the last `N` values written.
pub type CircularBuffer<T, const N: usize> = HistoryBuffer<T, N>;

impl<T: Copy, const N: usize> HistoryBuffer<T, N> {
    pub closed spec fn wf(&self) -> bool {
        &&& N > 0
        &&& self.write_at < N
        &&& self.write_at as int == (self.written@.len() as int) % (N as int)
        &&& self.filled <==> self.written@.len() >= N
        &&& self.written@.len() > 0 ==> self.data@[(if self.write_at == 0 {
            N - 1
        } else {
            self.write_at - 1
        }) as int] == self.written@.last()
    }

    /// Every value written so far, oldest first.
    pub closed spec fn history(&self) -> Seq<T> {
        self.written@
    }

    /// An empty buffer whose slots hold `fill`.
    pub fn new(fill: T) -> (r: Self)
        requires
            N > 0,
        ensures
            r.wf(),
            r.history() == Seq::<T>::empty(),
    {
        HistoryBuffer { data: [fill; N], write_at: 0, filled: false, written: Ghost(Seq::empty()) }
    }

    /// Records `value` as the most recent one, overwriting the oldest when full.
    pub fn write(&mut self, value: T)
        requires
            old(self).wf(),
        ensures
            final(self).wf(),
            final(self).history() == old(self).history().push(value),
    {
        let ghost w = self.written@;
        self.data[self.write_at] = value;
        self.write_at = self.write_at + 1;
        self.written = Ghost(w.push(value));
        proof {
            let n = w.len() as int;
            let m = N as int;
            vstd::arithmetic::div_mod::lemma_fundamental_div_mod(n, m);
            vstd::arithmetic::div_mod::lemma_mod_bound(n, m);
            if n % m + 1 == m {
                assert(n + 1 == (n / m + 1) * m + 0) by (nonlinear_arith)
                    requires
                        n == m * (n / m) + n % m,
                        n % m + 1 == m,
                ;
                vstd::arithmetic::div_mod::lemma_fundamental_div_mod_converse(n + 1, m, n / m + 1, 0);
            } else {
                assert(n + 1 == (n / m) * m + (n % m + 1)) by (nonlinear_arith)
                    requires
                        n == m * (n / m) + n % m,
                ;
                vstd::arithmetic::div_mod::lemma_fundamental_div_mod_converse(n + 1, m, n / m, n % m + 1);
            }
        }
        if self.write_at == N {
            self.write_at = 0;
            self.filled = true;
        }
        proof {
            let n = w.len() as int;
            let m = N as int;
            if n + 1 == m {
                vstd::arithmetic::div_mod::lemma_small_mod(n as nat, m as nat);
            }
            if n % m + 1 == m {
                assert((n / m + 1) * m >= m) by (nonlinear_arith)
                    requires
                        n >= 0,
                        m > 0,
                        n / m >= 0,
                ;
            }
        }
    }

    /// The most recently written value, if any.
    pub fn recent(&self) -> (r: Option<T>)
        requires
            self.wf(),
        ensures
            self.history().len() == 0 ==> r is None,
            self.history().len() > 0 ==> r == Some(self.history().last()),
    {
        if self.write_at == 0 {
            if self.filled {
                Some(self.data[N - 1])
            } else {
                proof {
                    let n = self.written@.len() as int;
                    let m = N as int;
                    if n > 0 {
                        vstd::arithmetic::div_mod::lemma_fundamental_div_mod(n, m);
                        assert(n >= m) by (nonlinear_arith)
                            requires
                                n == m * (n / m) + n % m,
                                n % m == 0,
                                n > 0,
                                m > 0,
                        ;
                    }
                }
                None
            }
        } else {
            proof {
                if self.written@.len() == 0 {
                    assert((0int) % (N as int) == 0);
                }
            }
            Some(self.data[self.write_at - 1])
        }
    }
}

} // verus!

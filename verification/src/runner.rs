//! The deduplicating execution step.
//!
//! A [`Runner`] owns the base command and the argument vector it last acted
//! on. For each argument vector taken from the queue, [`Runner::step`]
//! decides whether a child process is due: a vector equal to the last one
//! acted on is discarded, any other vector yields the full argument list of
//! the invocation to run. The runner keeps a ghost record of every vector
//! it has consumed, so its behaviour over a whole session is pinned to the
//! model in [`crate::model`].

use crate::command::CommandBase;
use crate::model::executed_after;
use crate::model::init_args;
use crate::model::last_after;
use crate::model::lemma_executed_in_order;
use crate::model::lemma_strings_view_push;
use crate::model::strings_view;
use vstd::prelude::*;

verus! {

/// The state of the execution loop between two received argument vectors.
pub struct Runner {
    base: CommandBase,
    last: Vec<String>,
    inputs: Ghost<Seq<Seq<Seq<char>>>>,
}

impl Runner {
    /// The base command, fixed for the runner's whole lifetime.
    pub closed spec fn base(self) -> CommandBase {
        self.base
    }

    /// Every argument vector the runner has consumed, in arrival order.
    pub closed spec fn inputs(self) -> Seq<Seq<Seq<char>>> {
        self.inputs@
    }

    /// The runner's held comparison point is the vector the model says it
    /// last acted on.
    pub closed spec fn wf(self) -> bool {
        strings_view(self.last@) == last_after(init_args(), self.inputs@)
    }

    /// A fresh runner for `base`: nothing consumed yet, so the next vector
    /// is compared against the empty vector.
    pub fn new(base: CommandBase) -> (r: Runner)
        ensures
            r.wf(),
            r.base() == base,
            r.inputs() == Seq::<Seq<Seq<char>>>::empty(),
    {
        let r = Runner { base, last: Vec::new(), inputs: Ghost(Seq::empty()) };
        proof {
            assert(strings_view(r.last@) =~= init_args());
        }
        r
    }

    /// Consumes one argument vector. Returns `None`, leaving the runner
    /// unchanged, exactly when the vector equals the one last acted on;
    /// otherwise records the vector as last acted on and returns the full
    /// argument list to execute: the program, the fixed arguments, then the
    /// new vector. The executed-vector model grows by the new vector exactly
    /// when an invocation is returned.
    pub fn step(&mut self, next: Vec<String>) -> (r: Option<Vec<String>>)
        requires
            old(self).wf(),
        ensures
            final(self).wf(),
            final(self).base() == old(self).base(),
            final(self).inputs() == old(self).inputs().push(strings_view(next@)),
            r is None <==> strings_view(next@) == last_after(init_args(), old(self).inputs()),
            r matches Some(cmd) ==> strings_view(cmd@) == old(self).base().argv_for(
                strings_view(next@),
            ),
            executed_after(init_args(), final(self).inputs()) == executed_after(
                init_args(),
                old(self).inputs(),
            ) + (if r is None {
                Seq::<Seq<Seq<char>>>::empty()
            } else {
                seq![strings_view(next@)]
            }),
    {
        proof {
            lemma_executed_in_order(init_args(), self.inputs@, seq![strings_view(next@)]);
            assert(self.inputs@ + seq![strings_view(next@)] =~= self.inputs@.push(
                strings_view(next@),
            ));
            crate::model::lemma_executed_single(
                last_after(init_args(), self.inputs@),
                strings_view(next@),
            );
        }
        let ghost consumed = self.inputs@.push(strings_view(next@));
        proof {
            assert(last_after(init_args(), consumed) == strings_view(next@)) by {
                assert(consumed.last() == strings_view(next@));
            }
        }
        if args_eq(&self.last, &next) {
            self.inputs = Ghost(consumed);
            None
        } else {
            let mut cmd: Vec<String> = Vec::new();
            cmd.push(self.base.program.clone());
            proof {
                assert(strings_view(cmd@) =~~= seq![self.base.program@] + strings_view(
                    self.base.args@,
                ).take(0));
            }
            let mut i: usize = 0;
            while i < self.base.args.len()
                invariant
                    i <= self.base.args@.len(),
                    strings_view(cmd@) == seq![self.base.program@] + strings_view(
                        self.base.args@,
                    ).take(i as int),
                decreases self.base.args@.len() - i,
            {
                let ghost pre = cmd@;
                cmd.push(self.base.args[i].clone());
                proof {
                    lemma_strings_view_push(pre, self.base.args@[i as int]);
                    assert(seq![self.base.program@] + strings_view(self.base.args@).take(
                        i + 1,
                    ) =~~= (seq![self.base.program@] + strings_view(self.base.args@).take(
                        i as int,
                    )).push(self.base.args@[i as int]@));
                }
                i += 1;
            }
            proof {
                assert(strings_view(self.base.args@).take(self.base.args@.len() as int)
                    =~= strings_view(self.base.args@));
                assert(strings_view(cmd@) =~~= seq![self.base.program@] + strings_view(
                    self.base.args@,
                ) + strings_view(next@).take(0));
            }
            let mut j: usize = 0;
            while j < next.len()
                invariant
                    j <= next@.len(),
                    strings_view(cmd@) == seq![self.base.program@] + strings_view(self.base.args@)
                        + strings_view(next@).take(j as int),
                decreases next@.len() - j,
            {
                let ghost pre = cmd@;
                cmd.push(next[j].clone());
                proof {
                    lemma_strings_view_push(pre, next@[j as int]);
                    assert(seq![self.base.program@] + strings_view(self.base.args@) + strings_view(
                        next@,
                    ).take(j + 1) =~~= (seq![self.base.program@] + strings_view(self.base.args@)
                        + strings_view(next@).take(j as int)).push(next@[j as int]@));
                }
                j += 1;
            }
            proof {
                assert(strings_view(cmd@) =~~= self.base.argv_for(strings_view(next@)));
            }
            self.last = next;
            self.inputs = Ghost(consumed);
            Some(cmd)
        }
    }
}

/// Structural equality of two argument vectors: same length, same characters
/// in each position.
pub fn args_eq(a: &Vec<String>, b: &Vec<String>) -> (r: bool)
    ensures
        r <==> strings_view(a@) == strings_view(b@),
{
    if a.len() != b.len() {
        proof {
            assert(strings_view(a@).len() != strings_view(b@).len());
        }
        return false;
    }
    let mut i: usize = 0;
    while i < a.len()
        invariant
            i <= a@.len(),
            a@.len() == b@.len(),
            forall|k: int| 0 <= k < i ==> a@[k]@ == b@[k]@,
        decreases a@.len() - i,
    {
        if !(a[i] == b[i]) {
            proof {
                assert(strings_view(a@)[i as int] == a@[i as int]@);
                assert(strings_view(b@)[i as int] == b@[i as int]@);
            }
            return false;
        }
        i += 1;
    }
    proof {
        assert(strings_view(a@) =~~= strings_view(b@));
    }
    true
}

} // verus!

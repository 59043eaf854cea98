//! The steps of a run in a build directory, and when that directory is removed.

use crate::config::GlobalConfig;
use crate::path::{join, FilePath};
use vstd::prelude::*;
use vstd::utf8::{encode_utf8, is_ascii_chars_encode_utf8};

verus! {

/// What to do next in the build directory.
#[derive(Debug, Copy, Clone, PartialEq, Eq, Structural)]
pub enum Action {
    /// Make the directory and write the Ninja file into it.
    WriteBuildFile,
    /// Run Ninja in the directory.
    RunNinja,
    /// Remove the directory.
    RemoveDir,
    /// Nothing more: all went well, or the last action failed.
    Finish(bool),
}

/// A run in a build directory.
#[derive(Debug, Copy, Clone, PartialEq, Eq, Structural)]
pub struct Session {
    /// What is being done.
    pub action: Action,
    /// Whether the directory is to be kept.
    pub keep: bool,
    /// Whether the directory was there before the run.
    pub stale: bool,
}

impl Session {
    /// The run after its action went well or failed.
    pub open spec fn after(self, ok: bool) -> Session {
        let action = match self.action {
            Action::WriteBuildFile if ok => Action::RunNinja,
            Action::RunNinja if ok => if self.keep || self.stale {
                Action::Finish(true)
            } else {
                Action::RemoveDir
            },
            Action::RemoveDir if ok => Action::Finish(true),
            Action::Finish(done) => Action::Finish(done),
            _ => Action::Finish(false),
        };
        Session { action, keep: self.keep, stale: self.stale }
    }

    /// The run after a number of actions, each of which went well or failed.
    pub open spec fn after_all(self, outcomes: Seq<bool>) -> Session
        decreases outcomes.len(),
    {
        if outcomes.len() == 0 {
            self
        } else {
            self.after_all(outcomes.drop_last()).after(outcomes.last())
        }
    }

    /// Begin a run in a directory; `stale` tells whether it is already there.
    pub fn new(config: &GlobalConfig, stale: bool) -> (session: Self)
        ensures
            session == (Session {
                action: Action::WriteBuildFile,
                keep: config.keep_build_dir,
                stale,
            }),
    {
        Session { action: Action::WriteBuildFile, keep: config.keep_build_dir, stale }
    }

    /// Go on after the action went well or failed.
    pub fn advance(&mut self, ok: bool)
        ensures
            *final(self) == old(self).after(ok),
    {
        self.action = match self.action {
            Action::Finish(done) => Action::Finish(done),
            _ => if !ok {
                Action::Finish(false)
            } else {
                match self.action {
                    Action::WriteBuildFile => Action::RunNinja,
                    // Remove the directory unless it already existed or is to be kept.
                    Action::RunNinja => if !self.keep && !self.stale {
                        Action::RemoveDir
                    } else {
                        Action::Finish(true)
                    },
                    _ => Action::Finish(true),
                }
            },
        };
    }

    /// The directory is removed only where it was not there before and is not to be
    /// kept, and only after the Ninja file was written and Ninja was run.
    pub proof fn law_removal(keep: bool, stale: bool, outcomes: Seq<bool>)
        requires
            (Session { action: Action::WriteBuildFile, keep, stale }).after_all(outcomes).action
                == Action::RemoveDir,
        ensures
            !keep,
            !stale,
            outcomes == seq![true, true],
    {
        let start = Session { action: Action::WriteBuildFile, keep, stale };
        lemma_progress(start, outcomes);
        assert(outcomes =~= seq![true, true]);
    }

    /// A run comes to its end: after three actions there is nothing more to do, and it
    /// went well exactly if each of its actions did.
    pub proof fn law_finish(keep: bool, stale: bool, outcomes: Seq<bool>)
        requires
            outcomes.len() == 3,
        ensures
            (Session { action: Action::WriteBuildFile, keep, stale }).after_all(outcomes).action
                == Action::Finish(outcomes[0] && outcomes[1] && (keep || stale || outcomes[2])),
    {
        let start = Session { action: Action::WriteBuildFile, keep, stale };
        lemma_progress(start, outcomes);
    }
}

/// What a run has come to after a number of actions.
proof fn lemma_progress(start: Session, outcomes: Seq<bool>)
    requires
        start.action == Action::WriteBuildFile,
    ensures
        ({
            let end = start.after_all(outcomes);
            let n = outcomes.len();
            &&& end.keep == start.keep
            &&& end.stale == start.stale
            &&& end.action == (if n == 0 {
                Action::WriteBuildFile
            } else if !outcomes[0] {
                Action::Finish(false)
            } else if n == 1 {
                Action::RunNinja
            } else if !outcomes[1] {
                Action::Finish(false)
            } else if start.keep || start.stale {
                Action::Finish(true)
            } else if n == 2 {
                Action::RemoveDir
            } else {
                Action::Finish(outcomes[2])
            })
        }),
    decreases outcomes.len(),
{
    if outcomes.len() > 0 {
        let init = outcomes.drop_last();
        lemma_progress(start, init);
        assert(forall|i: int| 0 <= i < init.len() ==> init[i] == outcomes[i]);
    }
}

/// The Ninja file in a build directory.
pub fn ninja_file(dir: &FilePath) -> (path: FilePath)
    ensures
        path@ == join(dir@, encode_utf8("build.ninja"@)),
{
    dir.join("build.ninja")
}

/// The Ninja file is `build.ninja`, directly in the directory.
pub proof fn law_ninja_file(dir: &FilePath, path: FilePath)
    requires
        call_ensures(ninja_file, (dir,), path),
    ensures
        path.bytes@ == dir.bytes@ + (if dir.bytes@.len() == 0 || dir.bytes@.last() == 0x2f {
            Seq::empty()
        } else {
            seq![0x2fu8]
        }) + encode_utf8("build.ninja"@),
{
    reveal_strlit("build.ninja");
    is_ascii_chars_encode_utf8("build.ninja"@);
    assert("build.ninja"@[0] == 'b');
    assert(dir.bytes@ + Seq::<u8>::empty() =~= dir.bytes@);
}

impl Session {
    /// A run begins with the Ninja file, and knows from the options whether the directory
    /// is to be kept.
    pub proof fn law_begin(config: &GlobalConfig, stale: bool, session: Session)
        requires
            call_ensures(Session::new, (config, stale), session),
        ensures
            session.action == Action::WriteBuildFile,
            session.keep == config.keep_build_dir,
            session.stale == stale,
    {
    }

    /// What follows an action. A run that is finished stays as it is, a failed action ends
    /// the run as failed, the Ninja file is followed by Ninja, and Ninja by removing the
    /// directory exactly if that is not to be kept and was not there before. What was known
    /// of the directory stays known.
    pub proof fn law_advance(session: &mut Session, ok: bool)
        requires
            call_ensures(Session::advance, (session, ok), ()),
        ensures
            final(session).keep == old(session).keep,
            final(session).stale == old(session).stale,
            old(session).action is Finish ==> final(session).action == old(session).action,
            !(old(session).action is Finish) && !ok ==> final(session).action == Action::Finish(
                false,
            ),
            old(session).action == Action::WriteBuildFile && ok ==> final(session).action
                == Action::RunNinja,
            old(session).action == Action::RunNinja && ok ==> {
                &&& final(session).action == Action::RemoveDir <==> !old(session).keep
                    && !old(session).stale
                &&& final(session).action != Action::RemoveDir ==> final(session).action
                    == Action::Finish(true)
            },
            old(session).action == Action::RemoveDir && ok ==> final(session).action
                == Action::Finish(true),
    {
    }

    /// The actions of a run, as far as they go well: the Ninja file, Ninja, and the removal
    /// of the directory where that is not to be kept and was not there before.
    pub proof fn law_actions(keep: bool, stale: bool)
        ensures
            ({
                let start = Session { action: Action::WriteBuildFile, keep, stale };
                &&& start.after_all(seq![]) == start
                &&& start.after_all(seq![true]).action == Action::RunNinja
                &&& start.after_all(seq![true, true]).action == (if keep || stale {
                    Action::Finish(true)
                } else {
                    Action::RemoveDir
                })
            }),
    {
        let start = Session { action: Action::WriteBuildFile, keep, stale };
        lemma_progress(start, seq![true]);
        lemma_progress(start, seq![true, true]);
    }
}

} // verus!

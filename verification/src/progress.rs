//! The progress display of a run: the counts of files to go through, the
//! per-file progress messages, and what the window shows for each.

use vstd::prelude::*;

verus! {

/// A message from the copying side.
#[derive(Debug)]
pub enum ProgressEvent {
    /// The number of files in the target folder.
    TotalTarget(i32),
    /// The number of files in all the source folders.
    TotalSources(i32),
    /// A target file was analysed (its path).
    TargetFile(String),
    /// A source file was handled (its path).
    SourceFile(String),
}

/// What the window is told to do, in order.
#[derive(Debug)]
pub enum UiCommand {
    /// Set the progress bar to this percentage.
    SetBar(i32),
    /// Show this path under the bar.
    SetPathLabel(String),
    /// Switch the section title to the pass over the source folders.
    ShowSourcesSection,
    /// Leave the progress page and announce that the run is over.
    ShowFinished,
}

/// The meaning of a `UiCommand`.
pub enum UiCommandView {
    SetBar(int),
    SetPathLabel(Seq<char>),
    ShowSourcesSection,
    ShowFinished,
}

impl View for UiCommand {
    type V = UiCommandView;

    open spec fn view(&self) -> UiCommandView {
        match self {
            UiCommand::SetBar(p) => UiCommandView::SetBar(*p as int),
            UiCommand::SetPathLabel(s) => UiCommandView::SetPathLabel(s@),
            UiCommand::ShowSourcesSection => UiCommandView::ShowSourcesSection,
            UiCommand::ShowFinished => UiCommandView::ShowFinished,
        }
    }
}

/// The views of a list of commands.
pub open spec fn commands_view(cmds: Seq<UiCommand>) -> Seq<UiCommandView> {
    cmds.map_values(|c: UiCommand| c@)
}

/// Integer division rounding toward zero, for a numerator `n >= 0`.
pub open spec fn div_toward_zero(n: int, d: int) -> int {
    if d > 0 {
        n / d
    } else {
        -(n / (-d))
    }
}

/// The percentage shown after `done` of `total` files.
pub open spec fn percent(done: int, total: int) -> int {
    div_toward_zero(done * 100, total)
}

/// The counters kept while messages arrive.
pub struct ProgressTracker {
    total_target: i32,
    total_sources: i32,
    current: i32,
    target_analyze_done: bool,
}

impl ProgressTracker {
    pub closed spec fn total_target(&self) -> int {
        self.total_target as int
    }

    pub closed spec fn total_sources(&self) -> int {
        self.total_sources as int
    }

    /// Files counted in the current pass.
    pub closed spec fn current(&self) -> int {
        self.current as int
    }

    /// Whether the pass over the target folder is over.
    pub closed spec fn target_done(&self) -> bool {
        self.target_analyze_done
    }

    pub closed spec fn wf(&self) -> bool {
        self.current >= 0
    }

    /// The message can be taken without dividing by zero or overflowing:
    /// a file message needs a nonzero total for its pass and a count whose
    /// percentage fits in an `i32`.
    pub open spec fn accepts(&self, event: ProgressEvent) -> bool {
        match event {
            ProgressEvent::TargetFile(_) => self.total_target() != 0 && (self.current() + 1) * 100
                <= i32::MAX,
            ProgressEvent::SourceFile(_) => self.total_sources() != 0 && ((if self.target_done() {
                self.current()
            } else {
                0
            }) + 1) * 100 <= i32::MAX,
            _ => true,
        }
    }

    /// Whether `on_message` can take `event` (`accepts`).
    pub fn can_take(&self, event: &ProgressEvent) -> (ok: bool)
        requires
            self.wf(),
        ensures
            ok == self.accepts(*event),
    {
        let limit: i32 = i32::MAX / 100;
        match event {
            ProgressEvent::TargetFile(_) => self.total_target != 0 && self.current < limit,
            ProgressEvent::SourceFile(_) => {
                let before = if self.target_analyze_done {
                    self.current
                } else {
                    0
                };
                self.total_sources != 0 && before < limit
            },
            _ => true,
        }
    }

    /// Nothing counted, no total known.
    pub fn new() -> (tracker: Self)
        ensures
            tracker.wf(),
            tracker.total_target() == 0,
            tracker.total_sources() == 0,
            tracker.current() == 0,
            !tracker.target_done(),
    {
        ProgressTracker { total_target: 0, total_sources: 0, current: 0, target_analyze_done: false }
    }

    fn percent_of(count: i32, total: i32) -> (p: i32)
        requires
            0 <= count,
            count * 100 <= i32::MAX,
            total != 0,
        ensures
            p == percent(count as int, total as int),
    {
        let n = count * 100;
        if total > 0 {
            n / total
        } else if total == i32::MIN {
            assert((n as int) / (-(total as int)) == 0) by (nonlinear_arith)
                requires
                    0 <= n <= i32::MAX,
                    total == i32::MIN,
            ;
            0
        } else {
            let d = -total;
            -(n / d)
        }
    }

    /// Takes one message and says what the window shows for it.
    pub fn on_message(&mut self, event: ProgressEvent) -> (cmds: Vec<UiCommand>)
        requires
            old(self).wf(),
            old(self).accepts(event),
        ensures
            final(self).wf(),
            match event {
                ProgressEvent::TotalTarget(n) => {
                    &&& final(self).total_target() == n
                    &&& final(self).total_sources() == old(self).total_sources()
                    &&& final(self).current() == old(self).current()
                    &&& final(self).target_done() == old(self).target_done()
                    &&& commands_view(cmds@) == Seq::<UiCommandView>::empty()
                },
                ProgressEvent::TotalSources(n) => {
                    &&& final(self).total_target() == old(self).total_target()
                    &&& final(self).total_sources() == n
                    &&& final(self).current() == old(self).current()
                    &&& final(self).target_done() == old(self).target_done()
                    &&& commands_view(cmds@) == Seq::<UiCommandView>::empty()
                },
                ProgressEvent::TargetFile(path) => {
                    let count = old(self).current() + 1;
                    let p = percent(count, old(self).total_target());
                    &&& final(self).total_target() == old(self).total_target()
                    &&& final(self).total_sources() == old(self).total_sources()
                    &&& if p == 100 {
                        &&& final(self).current() == 0
                        &&& final(self).target_done()
                        &&& commands_view(cmds@) == seq![
                            UiCommandView::SetBar(p),
                            UiCommandView::SetPathLabel(path@),
                            UiCommandView::ShowSourcesSection,
                            UiCommandView::SetBar(0),
                        ]
                    } else {
                        &&& final(self).current() == count
                        &&& final(self).target_done() == old(self).target_done()
                        &&& commands_view(cmds@) == seq![
                            UiCommandView::SetBar(p),
                            UiCommandView::SetPathLabel(path@),
                        ]
                    }
                },
                ProgressEvent::SourceFile(path) => {
                    let count = (if old(self).target_done() {
                        old(self).current()
                    } else {
                        0
                    }) + 1;
                    let p = percent(count, old(self).total_sources());
                    let opening = if old(self).target_done() {
                        Seq::<UiCommandView>::empty()
                    } else {
                        seq![UiCommandView::ShowSourcesSection]
                    };
                    let closing = if p == 100 {
                        seq![UiCommandView::ShowFinished]
                    } else {
                        Seq::<UiCommandView>::empty()
                    };
                    &&& final(self).total_target() == old(self).total_target()
                    &&& final(self).total_sources() == old(self).total_sources()
                    &&& final(self).current() == count
                    &&& final(self).target_done()
                    &&& commands_view(cmds@) == opening + seq![
                        UiCommandView::SetBar(p),
                        UiCommandView::SetPathLabel(path@),
                    ] + closing
                },
            },
    {
        let mut cmds: Vec<UiCommand> = Vec::new();
        match event {
            ProgressEvent::TotalTarget(n) => {
                self.total_target = n;
            },
            ProgressEvent::TotalSources(n) => {
                self.total_sources = n;
            },
            ProgressEvent::TargetFile(path) => {
                let ghost label = path@;
                self.current = self.current + 1;
                let p = Self::percent_of(self.current, self.total_target);
                cmds.push(UiCommand::SetBar(p));
                cmds.push(UiCommand::SetPathLabel(path));
                if p == 100 {
                    self.current = 0;
                    self.target_analyze_done = true;
                    cmds.push(UiCommand::ShowSourcesSection);
                    cmds.push(UiCommand::SetBar(0));
                    assert(commands_view(cmds@) =~= seq![
                        UiCommandView::SetBar(p as int),
                        UiCommandView::SetPathLabel(label),
                        UiCommandView::ShowSourcesSection,
                        UiCommandView::SetBar(0),
                    ]);
                } else {
                    assert(commands_view(cmds@) =~= seq![
                        UiCommandView::SetBar(p as int),
                        UiCommandView::SetPathLabel(label),
                    ]);
                }
            },
            ProgressEvent::SourceFile(path) => {
                let ghost label = path@;
                let ghost was_done = self.target_analyze_done;
                if !self.target_analyze_done {
                    cmds.push(UiCommand::ShowSourcesSection);
                    self.current = 0;
                    self.target_analyze_done = true;
                }
                self.current = self.current + 1;
                let p = Self::percent_of(self.current, self.total_sources);
                cmds.push(UiCommand::SetBar(p));
                cmds.push(UiCommand::SetPathLabel(path));
                if p == 100 {
                    cmds.push(UiCommand::ShowFinished);
                }
                proof {
                    let opening = if was_done {
                        Seq::<UiCommandView>::empty()
                    } else {
                        seq![UiCommandView::ShowSourcesSection]
                    };
                    let closing = if p == 100 {
                        seq![UiCommandView::ShowFinished]
                    } else {
                        Seq::<UiCommandView>::empty()
                    };
                    assert(commands_view(cmds@) =~= opening + seq![
                        UiCommandView::SetBar(p as int),
                        UiCommandView::SetPathLabel(label),
                    ] + closing);
                }
            },
        }
        if cmds.len() == 0 {
            assert(commands_view(cmds@) =~= Seq::<UiCommandView>::empty());
        }
        cmds
    }
}

/// With a positive total, the bar stays within 0..=100 while the count does
/// not pass the total, and it reaches 100 exactly with the last file: the
/// end of a pass is announced once, at its last file.
pub proof fn lemma_full_bar_exactly_at_last_file(count: int, total: int)
    requires
        0 < total,
        0 <= count <= total,
    ensures
        0 <= percent(count, total) <= 100,
        percent(count, total) == 100 <==> count == total,
{
    assert(0 <= (count * 100) / total <= 100) by (nonlinear_arith)
        requires
            0 < total,
            0 <= count <= total,
    ;
    assert(count < total ==> (count * 100) / total < 100) by (nonlinear_arith)
        requires
            0 < total,
            0 <= count,
    ;
    assert((total * 100) / total == 100) by (nonlinear_arith)
        requires
            0 < total,
    ;
}

} // verus!

//! The orchestrator's decisions: which block to start next, when to wait,
//! and when to stop. The loop that performs the commands and reports the
//! events lives outside the library.

use vstd::prelude::*;

verus! {

/// What the world tells the orchestrator.
#[derive(Clone, Copy, Debug, PartialEq, Eq, Structural)]
pub enum Event {
    /// A block that was started has been processed by every inspector.
    BlockFinished,
    /// A block that was started could not be processed.
    BlockFailed,
    /// The chain has grown to this block.
    TipAdvanced(u64),
    /// A graceful shutdown was asked for.
    Shutdown,
}

/// How the orchestrator ends.
#[derive(Clone, Copy, Debug, PartialEq, Eq, Structural)]
pub enum Exit {
    /// Every block of the range was processed, or a shutdown was asked for
    /// and the blocks in flight have drained.
    Clean,
    /// A block could not be processed.
    Failed,
}

/// What the orchestrator asks for.
#[derive(Clone, Copy, Debug, PartialEq, Eq, Structural)]
pub enum Command {
    /// Start processing this block.
    Start(u64),
    /// Wait for the next event.
    Wait,
    /// Stop.
    Exit(Exit),
}

/// The state of the orchestrator.
#[derive(Clone, Copy, Debug, PartialEq, Eq, Structural)]
pub struct Orchestrator {
    /// The next block to start, or nothing once the last block that a `u64`
    /// can number has been started.
    pub next_block: Option<u64>,
    /// The last block of the range; without it the range follows the tip.
    pub end_block: Option<u64>,
    /// The last block that the chain is known to have.
    pub chain_tip: u64,
    /// The number of blocks that were started and are not finished.
    pub in_flight: u64,
    /// The most blocks that may be in flight.
    pub max_tasks: u64,
    /// Whether a shutdown was asked for.
    pub shutting_down: bool,
    /// Whether a block has failed.
    pub failed: bool,
}

impl Orchestrator {
    /// Whether no more blocks are in flight than may be.
    pub open spec fn wf(self) -> bool {
        self.in_flight <= self.max_tasks && self.max_tasks >= 1
    }

    /// Whether every block of the range has been started.
    pub open spec fn range_done(self) -> bool {
        match self.next_block {
            None => true,
            Some(n) => match self.end_block {
                Some(end) => n > end,
                None => false,
            },
        }
    }

    /// The state after an event. A block that finishes or fails leaves the
    /// flight; the tip never moves back.
    pub open spec fn after(self, event: Event) -> Orchestrator {
        match event {
            Event::BlockFinished => Orchestrator {
                in_flight: if self.in_flight > 0 {
                    (self.in_flight - 1) as u64
                } else {
                    0
                },
                ..self
            },
            Event::BlockFailed => Orchestrator {
                in_flight: if self.in_flight > 0 {
                    (self.in_flight - 1) as u64
                } else {
                    0
                },
                failed: true,
                ..self
            },
            Event::TipAdvanced(tip) => Orchestrator {
                chain_tip: if tip > self.chain_tip {
                    tip
                } else {
                    self.chain_tip
                },
                ..self
            },
            Event::Shutdown => Orchestrator { shutting_down: true, ..self },
        }
    }

    /// What the orchestrator asks for in a state. After a failure, a
    /// shutdown or the end of the range it starts nothing, waits for the
    /// blocks in flight, and then stops. Otherwise it starts the next block
    /// as soon as the chain has it and the flight has room.
    pub open spec fn command(self) -> Command {
        if self.failed {
            if self.in_flight == 0 {
                Command::Exit(Exit::Failed)
            } else {
                Command::Wait
            }
        } else if self.shutting_down || self.range_done() {
            if self.in_flight == 0 {
                Command::Exit(Exit::Clean)
            } else {
                Command::Wait
            }
        } else if self.next_block->0 > self.chain_tip || self.in_flight >= self.max_tasks {
            Command::Wait
        } else {
            Command::Start(self.next_block->0)
        }
    }

    /// The state once a command has been given: a block that is started
    /// joins the flight, and the block after it is next.
    pub open spec fn given(self, command: Command) -> Orchestrator {
        match command {
            Command::Start(n) => Orchestrator {
                next_block: if n < u64::MAX {
                    Some((n + 1) as u64)
                } else {
                    None
                },
                in_flight: (self.in_flight + 1) as u64,
                ..self
            },
            _ => self,
        }
    }

    /// The orchestrator of a run over the blocks from `start_block` on. A
    /// flight of no blocks would never start one, so at least one block may
    /// be in flight.
    pub fn new(start_block: u64, end_block: Option<u64>, chain_tip: u64, max_tasks: u64) -> (r:
        Orchestrator)
        ensures
            r.wf(),
            r == (Orchestrator {
                next_block: Some(start_block),
                end_block,
                chain_tip,
                in_flight: 0,
                max_tasks: if max_tasks == 0 {
                    1
                } else {
                    max_tasks
                },
                shutting_down: false,
                failed: false,
            }),
    {
        Orchestrator {
            next_block: Some(start_block),
            end_block,
            chain_tip,
            in_flight: 0,
            max_tasks: if max_tasks == 0 {
                1
            } else {
                max_tasks
            },
            shutting_down: false,
            failed: false,
        }
    }

    /// Takes in an event.
    pub fn on_event(&mut self, event: Event)
        requires
            old(self).wf(),
        ensures
            final(self).wf(),
            *final(self) == old(self).after(event),
    {
        match event {
            Event::BlockFinished => {
                if self.in_flight > 0 {
                    self.in_flight = self.in_flight - 1;
                }
            },
            Event::BlockFailed => {
                if self.in_flight > 0 {
                    self.in_flight = self.in_flight - 1;
                }
                self.failed = true;
            },
            Event::TipAdvanced(tip) => {
                if tip > self.chain_tip {
                    self.chain_tip = tip;
                }
            },
            Event::Shutdown => {
                self.shutting_down = true;
            },
        }
    }

    /// Says what to do next, and counts a block that is started.
    pub fn next(&mut self) -> (command: Command)
        requires
            old(self).wf(),
        ensures
            final(self).wf(),
            command == old(self).command(),
            *final(self) == old(self).given(command),
    {
        if self.failed {
            return if self.in_flight == 0 {
                Command::Exit(Exit::Failed)
            } else {
                Command::Wait
            };
        }
        let n = match self.next_block {
            Some(n) => n,
            None => {
                return if self.in_flight == 0 {
                    Command::Exit(Exit::Clean)
                } else {
                    Command::Wait
                };
            },
        };
        let past_end = match self.end_block {
            Some(end) => n > end,
            None => false,
        };
        if self.shutting_down || past_end {
            return if self.in_flight == 0 {
                Command::Exit(Exit::Clean)
            } else {
                Command::Wait
            };
        }
        if n > self.chain_tip || self.in_flight >= self.max_tasks {
            return Command::Wait;
        }
        self.next_block = if n < u64::MAX {
            Some(n + 1)
        } else {
            None
        };
        self.in_flight = self.in_flight + 1;
        Command::Start(n)
    }
}

/// A block is only started inside the range, up to the tip, and while the
/// run is neither failing nor shutting down; and the flight never holds
/// more blocks than it may.
pub proof fn lemma_start_is_admissible(o: Orchestrator, n: u64)
    requires
        o.wf(),
        o.command() == Command::Start(n),
    ensures
        o.next_block == Some(n),
        n <= o.chain_tip,
        o.end_block matches Some(end) ==> n <= end,
        !o.shutting_down,
        !o.failed,
        o.in_flight < o.max_tasks,
        o.given(Command::Start(n)).wf(),
{
}

/// The orchestrator stops only when no block is in flight.
pub proof fn lemma_exit_is_drained(o: Orchestrator, exit: Exit)
    requires
        o.command() == Command::Exit(exit),
    ensures
        o.in_flight == 0,
        exit == Exit::Failed <==> o.failed,
{
}

/// How calls to a backend are tried again: with a pause that doubles after
/// every failure, and not more often than a bound says.
#[derive(Clone, Copy, Debug, PartialEq, Eq, Structural)]
pub struct RetryPolicy {
    /// The pause after the first failure, in milliseconds.
    pub base_delay_ms: u64,
    /// How often a call is made before its failure is final.
    pub max_attempts: u32,
}

/// Two to the power `n`.
pub open spec fn pow2(n: nat) -> nat
    decreases n,
{
    if n == 0 {
        1
    } else {
        2 * pow2((n - 1) as nat)
    }
}

impl RetryPolicy {
    /// The pause before the next attempt after `failures` failures in a
    /// row: the base pause doubled once for every failure but the first,
    /// and at most what a `u64` holds. There is no next attempt once the
    /// call has been made `max_attempts` times.
    pub open spec fn pause(self, failures: u32) -> Option<u64> {
        if failures == 0 || failures >= self.max_attempts {
            None
        } else if self.base_delay_ms * pow2((failures - 1) as nat) > u64::MAX {
            Some(u64::MAX)
        } else {
            Some((self.base_delay_ms * pow2((failures - 1) as nat)) as u64)
        }
    }

    /// The pause before the next attempt, in milliseconds, or nothing where
    /// the failure is final.
    pub fn retry_delay(&self, failures: u32) -> (r: Option<u64>)
        ensures
            r == self.pause(failures),
    {
        if failures == 0 || failures >= self.max_attempts {
            return None;
        }
        let mut delay: u64 = self.base_delay_ms;
        let mut doubled: u32 = 0;
        proof {
            let b = self.base_delay_ms as int;
            assert(b * 1 == b) by (nonlinear_arith);
        }
        while doubled < failures - 1
            invariant
                doubled <= failures - 1,
                failures >= 1,
                delay == if self.base_delay_ms * pow2(doubled as nat) > u64::MAX {
                    u64::MAX as int
                } else {
                    self.base_delay_ms * pow2(doubled as nat)
                },
            decreases failures - 1 - doubled,
        {
            proof {
                let b = self.base_delay_ms as int;
                let p = pow2(doubled as nat) as int;
                assert(pow2((doubled + 1) as nat) == 2 * pow2(doubled as nat));
                assert(b * (2 * p) == 2 * (b * p)) by (nonlinear_arith);
            }
            delay = if delay > u64::MAX / 2 {
                u64::MAX
            } else {
                delay * 2
            };
            doubled = doubled + 1;
        }
        Some(delay)
    }
}

} // verus!

//! Output phase state machine: turns the ordered event sequence into rendered
//! text, bracketing reasoning in a delimiter pair that is opened and closed at
//! most once per response. The caller writes and flushes what is handed back.

use vstd::prelude::*;

use crate::msg::EventView;
use crate::msg::LlmStreamEvent;

verus! {

/// The phase of one response's rendering.
#[derive(Debug, Clone, Copy, PartialEq, Eq, Structural)]
pub enum OutputPhase {
    Init,
    Thinking,
    Responding,
}

/// The opening reasoning delimiter.
pub open spec fn think_open() -> Seq<char> {
    "<think>"@
}

/// The closing reasoning delimiter.
pub open spec fn think_close() -> Seq<char> {
    "</think>\n"@
}

/// One content event: the phase moves to `Responding`, an open delimiter is
/// closed first, and the text is written verbatim.
pub open spec fn step_content(ph: OutputPhase, open: bool, text: Seq<char>) -> (
    OutputPhase,
    bool,
    Seq<char>,
) {
    let prefix = if ph == OutputPhase::Thinking && open {
        think_close()
    } else {
        Seq::<char>::empty()
    };
    let open2 = if ph == OutputPhase::Thinking {
        false
    } else {
        open
    };
    (OutputPhase::Responding, open2, prefix + text)
}

/// One reasoning event with reasoning enabled: from `Init` the delimiter is
/// opened and the phase moves to `Thinking`; in `Thinking` the text is written
/// verbatim; in `Responding` the event is dropped.
pub open spec fn step_reasoning(ph: OutputPhase, open: bool, text: Seq<char>) -> (
    OutputPhase,
    bool,
    Seq<char>,
) {
    if ph == OutputPhase::Init {
        let prefix = if !open {
            think_open()
        } else {
            Seq::<char>::empty()
        };
        (OutputPhase::Thinking, true, prefix + text)
    } else if ph == OutputPhase::Thinking {
        (OutputPhase::Thinking, open, text)
    } else {
        (OutputPhase::Responding, open, Seq::<char>::empty())
    }
}

/// One event: reasoning events are dropped entirely when reasoning is
/// disabled.
pub open spec fn step_event(ph: OutputPhase, open: bool, enabled: bool, ev: EventView) -> (
    OutputPhase,
    bool,
    Seq<char>,
) {
    match ev {
        EventView::Content(t) => step_content(ph, open, t),
        EventView::Reasoning(t) => if enabled {
            step_reasoning(ph, open, t)
        } else {
            (ph, open, Seq::<char>::empty())
        },
    }
}

/// The end of the sequence: a still-open delimiter is closed.
pub open spec fn step_finish(open: bool) -> (bool, Seq<char>) {
    if open {
        (false, think_close())
    } else {
        (false, Seq::<char>::empty())
    }
}

/// Everything rendered from `evs` onward, the final close included.
pub open spec fn render_from(ph: OutputPhase, open: bool, enabled: bool, evs: Seq<EventView>) -> Seq<
    char,
>
    decreases evs.len(),
{
    if evs.len() == 0 {
        step_finish(open).1
    } else {
        let st = step_event(ph, open, enabled, evs[0]);
        st.2 + render_from(st.0, st.1, enabled, evs.drop_first())
    }
}

/// The full rendering of an event sequence.
pub open spec fn spec_render(evs: Seq<EventView>, enabled: bool) -> Seq<char> {
    render_from(OutputPhase::Init, false, enabled, evs)
}

/// The mutable rendering state of one response.
pub struct OutputRenderer {
    phase: OutputPhase,
    delimiter_open: bool,
    include_reasoning: bool,
}

impl OutputRenderer {
    /// The current phase.
    pub closed spec fn spec_phase(&self) -> OutputPhase {
        self.phase
    }

    /// Whether an opening delimiter awaits its closing counterpart.
    pub closed spec fn spec_delimiter_open(&self) -> bool {
        self.delimiter_open
    }

    /// Whether reasoning text is rendered at all.
    pub closed spec fn spec_include(&self) -> bool {
        self.include_reasoning
    }

    /// A fresh renderer for one response.
    pub fn new(include_reasoning: bool) -> (r: OutputRenderer)
        ensures
            r.spec_phase() == OutputPhase::Init,
            !r.spec_delimiter_open(),
            r.spec_include() == include_reasoning,
    {
        OutputRenderer { phase: OutputPhase::Init, delimiter_open: false, include_reasoning }
    }

    /// Renders one event: hands back exactly the text to write, delimiters
    /// included; the caller writes it and flushes.
    pub fn render_event(&mut self, event: &LlmStreamEvent) -> (out: String)
        ensures
            ({
                let st = step_event(
                    old(self).spec_phase(),
                    old(self).spec_delimiter_open(),
                    old(self).spec_include(),
                    event@,
                );
                &&& final(self).spec_phase() == st.0
                &&& final(self).spec_delimiter_open() == st.1
                &&& out@ == st.2
                &&& final(self).spec_include() == old(self).spec_include()
            }),
    {
        let mut out = String::new();
        match event {
            LlmStreamEvent::Content(text) => {
                if self.phase == OutputPhase::Thinking && self.delimiter_open {
                    out.append("</think>\n");
                }
                if self.phase == OutputPhase::Thinking {
                    self.delimiter_open = false;
                }
                self.phase = OutputPhase::Responding;
                out.append(text.as_str());
            },
            LlmStreamEvent::Reasoning(text) => {
                if self.include_reasoning {
                    if self.phase == OutputPhase::Init {
                        if !self.delimiter_open {
                            out.append("<think>");
                        }
                        self.phase = OutputPhase::Thinking;
                        self.delimiter_open = true;
                        out.append(text.as_str());
                    } else if self.phase == OutputPhase::Thinking {
                        out.append(text.as_str());
                    }
                }
            },
        }
        out
    }

    /// Ends the response: closes a still-open delimiter.
    pub fn finish(&mut self) -> (out: String)
        ensures
            ({
                let st = step_finish(old(self).spec_delimiter_open());
                &&& final(self).spec_delimiter_open() == st.0
                &&& out@ == st.1
                &&& final(self).spec_phase() == old(self).spec_phase()
                &&& final(self).spec_include() == old(self).spec_include()
            }),
    {
        let mut out = String::new();
        if self.delimiter_open {
            out.append("</think>\n");
            self.delimiter_open = false;
        }
        out
    }
}

/// Renders a whole event sequence, the final close included.
pub fn render_transcript(events: &Vec<LlmStreamEvent>, include_reasoning: bool) -> (out: String)
    ensures
        out@ == spec_render(crate::msg::events_view(events@), include_reasoning),
{
    let mut renderer = OutputRenderer::new(include_reasoning);
    let mut out = String::new();
    let mut i: usize = 0;
    let n: usize = events.len();
    proof {
        assert(crate::msg::events_view(events@).skip(0) =~= crate::msg::events_view(events@));
    }
    while i < n
        invariant
            i <= n,
            n == events@.len(),
            renderer.spec_include() == include_reasoning,
            spec_render(crate::msg::events_view(events@), include_reasoning) == out@ + render_from(
                renderer.spec_phase(),
                renderer.spec_delimiter_open(),
                include_reasoning,
                crate::msg::events_view(events@).skip(i as int),
            ),
        decreases n - i,
    {
        let ghost evs = crate::msg::events_view(events@);
        proof {
            assert(evs.skip(i as int)[0] == evs[i as int]);
            assert(evs.skip(i as int).drop_first() =~= evs.skip(i as int + 1));
        }
        let piece = renderer.render_event(&events[i]);
        out.append(piece.as_str());
        proof {
            assert((out@ + render_from(
                renderer.spec_phase(),
                renderer.spec_delimiter_open(),
                include_reasoning,
                evs.skip(i as int + 1),
            )) =~= spec_render(evs, include_reasoning));
        }
        i = i + 1;
    }
    let tail = renderer.finish();
    out.append(tail.as_str());
    proof {
        assert(crate::msg::events_view(events@).skip(n as int)
            =~= Seq::<EventView>::empty());
    }
    out
}

} // verus!


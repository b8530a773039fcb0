//! The program around the proxy: its tray menu, its window, and when the proxy starts and stops.
use vstd::prelude::*;
use crate::config::AppConfig;
use crate::text::{chars_of, is_text};

verus! {

/// Something that the program is to do.
#[derive(Clone, Copy, Debug, PartialEq, Eq, Structural)]
pub enum Act {
    /// Remove a block that an earlier run left in the hosts file.
    CleanHosts,
    /// Make the shortcut that starts the program with the system.
    MakeShortcut,
    /// Start the proxy, once the program is up.
    StartLater,
    /// Empty the log.
    ClearLog,
    /// Show on the menu that the proxy runs, or that it does not.
    ShowRunning(bool),
    /// Run the proxy in the background.
    RunProxy,
    /// Tell the proxy to stop.
    SendStop,
    /// Take the block out of the hosts file.
    RestoreHosts,
    /// Show on the menu whether the program keeps no window.
    CheckLight(bool),
    /// Show the window.
    ShowWindow,
    /// Make the window.
    BuildWindow,
    /// Close the window.
    CloseWindow,
    /// Hide the window in place of closing it.
    HideWindow,
    /// Do not end.
    StayUp,
    /// End, with the given code.
    Exit(u8),
}

/// Something that happened to the program.
#[derive(Clone, Copy, Debug, PartialEq, Eq, Structural)]
pub enum Event {
    /// It has read its settings.
    Launched(AppConfig),
    /// The proxy is to start.
    Start,
    /// The proxy is to stop.
    Stop,
    /// The proxy has ended; whether with an error.
    Ended(bool),
    /// The window is to be shown; whether there is one.
    Show(bool),
    /// The menu's entry to start or stop the proxy was chosen.
    Toggle,
    /// The menu's entry to keep no window was chosen; whether there is one.
    Light(bool),
    /// The menu's entry to quit was chosen.
    Quit,
    /// The window is to be closed.
    CloseRequested,
    /// The program is to end.
    ExitRequested,
}

/// The state of the program.
#[derive(Clone, Copy, Debug, PartialEq, Eq, Structural)]
pub struct Shell {
    /// Whether the proxy runs.
    pub running: bool,
    /// Whether the program keeps no window.
    pub light_mode: bool,
    /// Whether the window is closed for that reason.
    pub light_close: bool,
    /// Whether the program may end.
    pub quit: bool,
}

/// The program before anything happened.
pub open spec fn idle() -> Shell {
    Shell { running: false, light_mode: false, light_close: false, quit: false }
}

/// The start of the proxy: nothing where it runs already.
pub open spec fn started(s: Shell) -> (Shell, Seq<Act>) {
    if s.running {
        (s, Seq::empty())
    } else {
        (
            Shell { running: true, ..s },
            seq![Act::ClearLog, Act::ShowRunning(true), Act::RunProxy],
        )
    }
}

/// The order to stop: nothing where the proxy does not run. It runs on until it has ended.
pub open spec fn stopped(s: Shell) -> (Shell, Seq<Act>) {
    if s.running {
        (s, seq![Act::SendStop])
    } else {
        (s, Seq::empty())
    }
}

/// The window is shown, or made; the program keeps one from then on.
pub open spec fn shown(s: Shell, window: bool) -> (Shell, Seq<Act>) {
    (
        Shell { light_mode: false, ..s },
        (if s.light_mode {
            seq![Act::CheckLight(false)]
        } else {
            Seq::empty()
        }) + seq![
            if window {
                Act::ShowWindow
            } else {
                Act::BuildWindow
            },
        ],
    )
}

/// What the program does when something happens to it, and the state it is in then.
pub open spec fn reaction(s: Shell, event: Event) -> (Shell, Seq<Act>) {
    match event {
        Event::Launched(config) => (
            Shell { light_mode: config.silent_launch, ..s },
            seq![Act::CleanHosts] + (if config.autostart {
                seq![Act::MakeShortcut]
            } else {
                Seq::empty()
            }) + (if config.auto_run {
                seq![Act::StartLater]
            } else {
                Seq::empty()
            }) + seq![Act::CheckLight(config.silent_launch)] + (if config.silent_launch {
                Seq::empty()
            } else {
                seq![Act::BuildWindow]
            }),
        ),
        Event::Start => started(s),
        Event::Stop => stopped(s),
        Event::Ended(failed) => (
            Shell { running: false, quit: s.quit || failed, ..s },
            if failed {
                seq![Act::RestoreHosts, Act::ShowRunning(false), Act::Exit(1)]
            } else {
                seq![Act::ShowRunning(false)]
            },
        ),
        Event::Show(window) => shown(s, window),
        Event::Toggle => if s.running {
            stopped(s)
        } else {
            started(s)
        },
        Event::Light(window) => if s.light_mode {
            (
                Shell { light_mode: false, ..s },
                seq![
                    Act::CheckLight(false),
                    if window {
                        Act::ShowWindow
                    } else {
                        Act::BuildWindow
                    },
                ],
            )
        } else if window {
            (
                Shell { light_mode: true, light_close: true, ..s },
                seq![Act::CheckLight(true), Act::CloseWindow],
            )
        } else {
            (Shell { light_mode: true, ..s }, seq![Act::CheckLight(true)])
        },
        Event::Quit => (
            Shell { quit: true, ..s },
            if s.running {
                seq![Act::SendStop, Act::RestoreHosts, Act::Exit(0)]
            } else {
                seq![Act::Exit(0)]
            },
        ),
        Event::CloseRequested => if s.light_close {
            (Shell { light_close: false, ..s }, Seq::empty())
        } else {
            (s, seq![Act::StayUp, Act::HideWindow])
        },
        Event::ExitRequested => if s.quit {
            (s, Seq::empty())
        } else {
            (s, seq![Act::StayUp])
        },
    }
}

/// The event that an entry of the menu stands for, by its name; whether there is a window.
pub open spec fn menu_event(id: Seq<char>, window: bool) -> Option<Event> {
    if id == "show"@ {
        Some(Event::Show(window))
    } else if id == "toggle"@ {
        Some(Event::Toggle)
    } else if id == "light"@ {
        Some(Event::Light(window))
    } else if id == "quit"@ {
        Some(Event::Quit)
    } else {
        None
    }
}

impl Shell {
    /// The program before anything happened.
    pub fn new() -> (r: Shell)
        ensures
            r == idle(),
    {
        Shell { running: false, light_mode: false, light_close: false, quit: false }
    }

    /// Takes up an event, and says what is to be done, in order.
    pub fn on(&mut self, event: Event) -> (r: Vec<Act>)
        ensures
            (*final(self), r@) == reaction(*old(self), event),
    {
        let ghost before = *self;
        let mut acts: Vec<Act> = Vec::new();
        match event {
            Event::Launched(config) => {
                acts.push(Act::CleanHosts);
                if config.autostart {
                    acts.push(Act::MakeShortcut);
                }
                if config.auto_run {
                    acts.push(Act::StartLater);
                }
                self.light_mode = config.silent_launch;
                acts.push(Act::CheckLight(config.silent_launch));
                if !config.silent_launch {
                    acts.push(Act::BuildWindow);
                }
            },
            Event::Start => {
                acts = self.start_proxy();
            },
            Event::Stop => {
                acts = self.stop_proxy();
            },
            Event::Ended(failed) => {
                if failed {
                    acts.push(Act::RestoreHosts);
                }
                self.running = false;
                acts.push(Act::ShowRunning(false));
                if failed {
                    self.quit = true;
                    acts.push(Act::Exit(1));
                }
            },
            Event::Show(window) => {
                acts = self.show_or_create_window(window);
            },
            Event::Toggle => {
                if self.running {
                    acts = self.stop_proxy();
                } else {
                    acts = self.start_proxy();
                }
            },
            Event::Light(window) => {
                self.light_mode = !self.light_mode;
                acts.push(Act::CheckLight(self.light_mode));
                if !self.light_mode {
                    if window {
                        acts.push(Act::ShowWindow);
                    } else {
                        acts.push(Act::BuildWindow);
                    }
                } else if window {
                    self.light_close = true;
                    acts.push(Act::CloseWindow);
                }
            },
            Event::Quit => {
                self.quit = true;
                if self.running {
                    acts.push(Act::SendStop);
                    acts.push(Act::RestoreHosts);
                }
                acts.push(Act::Exit(0));
            },
            Event::CloseRequested => {
                if self.light_close {
                    self.light_close = false;
                } else {
                    acts.push(Act::StayUp);
                    acts.push(Act::HideWindow);
                }
            },
            Event::ExitRequested => {
                if !self.quit {
                    acts.push(Act::StayUp);
                }
            },
        }
        assert(acts@ =~= reaction(before, event).1);
        acts
    }

    /// Starts the proxy where it does not run.
    pub fn start_proxy(&mut self) -> (r: Vec<Act>)
        ensures
            (*final(self), r@) == started(*old(self)),
    {
        let ghost before = *self;
        let mut acts: Vec<Act> = Vec::new();
        if !self.running {
            self.running = true;
            acts.push(Act::ClearLog);
            acts.push(Act::ShowRunning(true));
            acts.push(Act::RunProxy);
        }
        assert(acts@ =~= started(before).1);
        acts
    }

    /// Tells the proxy to stop where it runs.
    pub fn stop_proxy(&self) -> (r: Vec<Act>)
        ensures
            (*self, r@) == stopped(*self),
    {
        let mut acts: Vec<Act> = Vec::new();
        if self.running {
            acts.push(Act::SendStop);
        }
        assert(acts@ =~= stopped(*self).1);
        acts
    }

    /// Shows the window, or makes it.
    pub fn show_or_create_window(&mut self, window: bool) -> (r: Vec<Act>)
        ensures
            (*final(self), r@) == shown(*old(self), window),
    {
        let ghost before = *self;
        let mut acts: Vec<Act> = Vec::new();
        if self.light_mode {
            self.light_mode = false;
            acts.push(Act::CheckLight(false));
        }
        acts.push(
            if window {
                Act::ShowWindow
            } else {
                Act::BuildWindow
            },
        );
        assert(acts@ =~= shown(before, window).1);
        acts
    }

    /// Starts or stops the proxy as the window wants it, and says whether it runs then.
    pub fn set_proxy_status(&mut self, wanted: bool) -> (r: (Vec<Act>, bool))
        ensures
            (*final(self), r.0@) == if wanted {
                started(*old(self))
            } else {
                stopped(*old(self))
            },
            r.1 == final(self).running,
    {
        let acts: Vec<Act> = if wanted {
            self.start_proxy()
        } else {
            self.stop_proxy()
        };
        (acts, self.running)
    }

    /// The words on the menu's entry to start or stop the proxy.
    pub fn refresh_toggle_text(&self) -> (r: &'static str)
        ensures
            r@ == toggle_text(self.running),
    {
        if self.running {
            "停止"
        } else {
            "启动"
        }
    }

    /// Takes up that an entry of the menu was chosen.
    pub fn on_menu(&mut self, id: &str, window: bool) -> (r: Vec<Act>)
        ensures
            match menu_event(id@, window) {
                Some(event) => (*final(self), r@) == reaction(*old(self), event),
                None => *final(self) == *old(self) && r@.len() == 0,
            },
    {
        let t: Vec<char> = chars_of(id);
        if is_text(t.as_slice(), "show") {
            self.on(Event::Show(window))
        } else if is_text(t.as_slice(), "toggle") {
            self.on(Event::Toggle)
        } else if is_text(t.as_slice(), "light") {
            self.on(Event::Light(window))
        } else if is_text(t.as_slice(), "quit") {
            self.on(Event::Quit)
        } else {
            Vec::new()
        }
    }
}

/// The words on the menu's entry to start or stop the proxy.
pub open spec fn toggle_text(running: bool) -> Seq<char> {
    if running {
        "停止"@
    } else {
        "启动"@
    }
}

/// The program does not end while the proxy runs without taking the block out of the hosts
/// file first.
pub proof fn law_end_restores_hosts(s: Shell, event: Event, i: int)
    requires
        s.running,
        0 <= i < reaction(s, event).1.len(),
        reaction(s, event).1[i] is Exit,
    ensures
        exists|j: int| 0 <= j < i && reaction(s, event).1[j] == Act::RestoreHosts,
{
    let acts = reaction(s, event).1;
    match event {
        Event::Ended(failed) => {
            assert(acts[0] == Act::RestoreHosts);
        },
        Event::Quit => {
            assert(acts[1] == Act::RestoreHosts);
        },
        _ => {},
    }
}

/// The proxy is run only where it does not run, and runs until it has ended.
pub proof fn law_one_proxy(s: Shell, event: Event)
    ensures
        reaction(s, event).1.contains(Act::RunProxy) ==> !s.running && reaction(
            s,
            event,
        ).0.running,
        s.running && !(event is Ended) ==> reaction(s, event).0.running,
        event is Ended ==> !reaction(s, event).0.running,
{
}

/// The program ends only once it may: where it is told to end it may, and it is never again
/// forbidden.
pub proof fn law_ends_on_purpose(s: Shell, event: Event, code: u8)
    ensures
        reaction(s, event).1.contains(Act::Exit(code)) ==> reaction(s, event).0.quit,
        s.quit ==> reaction(s, event).0.quit,
        reaction(s, Event::ExitRequested).1.contains(Act::StayUp) <==> !s.quit,
{
    let acts = reaction(s, Event::ExitRequested).1;
    if !s.quit {
        assert(acts[0] == Act::StayUp);
    }
}

/// The window that is closed because the program is to keep none is let go, and that once: the
/// next is hidden in place of being closed.
pub proof fn law_light_close_once(s: Shell)
    requires
        !s.light_mode,
    ensures
        ({
            let light = reaction(s, Event::Light(true)).0;
            let (closed, acts) = reaction(light, Event::CloseRequested);
            &&& acts.len() == 0
            &&& reaction(closed, Event::CloseRequested).1 == seq![Act::StayUp, Act::HideWindow]
        }),
{
}

/// To choose the entry to keep no window twice leaves the program as it was in that.
pub proof fn law_light_twice(s: Shell, first: bool, second: bool)
    ensures
        reaction(reaction(s, Event::Light(first)).0, Event::Light(second)).0.light_mode
            == s.light_mode,
{
}

/// At its launch the program first removes a block that was left in the hosts file; it makes the
/// shortcut, starts the proxy and makes its window where, and only where, the settings say so, and
/// shows on the menu whether it keeps a window. Nothing else is done, and nothing twice.
pub proof fn law_launch(s: Shell, config: AppConfig)
    ensures
        ({
            let (after, acts) = reaction(s, Event::Launched(config));
            &&& acts.len() > 0 && acts[0] == Act::CleanHosts
            &&& acts.contains(Act::MakeShortcut) <==> config.autostart
            &&& acts.contains(Act::StartLater) <==> config.auto_run
            &&& acts.contains(Act::CheckLight(config.silent_launch))
            &&& acts.contains(Act::BuildWindow) <==> !config.silent_launch
            &&& acts.len() == 2 + (if config.autostart {
                1int
            } else {
                0
            }) + (if config.auto_run {
                1int
            } else {
                0
            }) + (if config.silent_launch {
                0int
            } else {
                1
            })
            &&& after.light_mode == config.silent_launch
            &&& after.running == s.running && after.light_close == s.light_close && after.quit == s.quit
        }),
{
    let acts = reaction(s, Event::Launched(config)).1;
    let a: int = if config.autostart {
        1
    } else {
        0
    };
    let r: int = if config.auto_run {
        1
    } else {
        0
    };
    if config.autostart {
        assert(acts[1] == Act::MakeShortcut);
    }
    if config.auto_run {
        assert(acts[1 + a] == Act::StartLater);
    }
    assert(acts[1 + a + r] == Act::CheckLight(config.silent_launch));
    if !config.silent_launch {
        assert(acts[2 + a + r] == Act::BuildWindow);
    }
}

/// The order to start runs the proxy where it does not run, after the log was emptied and the menu
/// shows it; where it runs, nothing happens. The order to stop is handed on where the proxy runs,
/// and it is then the proxy that ends. The entry on the menu is the one or the other.
pub proof fn law_start_and_stop(s: Shell)
    ensures
        !s.running ==> reaction(s, Event::Start).1 == seq![
            Act::ClearLog,
            Act::ShowRunning(true),
            Act::RunProxy,
        ] && reaction(s, Event::Start).0.running,
        s.running ==> reaction(s, Event::Start) == (s, Seq::<Act>::empty()),
        s.running ==> reaction(s, Event::Stop) == (s, seq![Act::SendStop]),
        !s.running ==> reaction(s, Event::Stop) == (s, Seq::<Act>::empty()),
        reaction(s, Event::Toggle) == if s.running {
            reaction(s, Event::Stop)
        } else {
            reaction(s, Event::Start)
        },
        ({
            let t = reaction(s, Event::Start).0;
            t.light_mode == s.light_mode && t.light_close == s.light_close && t.quit == s.quit
        }),
{
}

/// When the proxy has ended, the menu shows it; with an error the block is taken out of the hosts
/// file first, and the program ends with the code 1, and else it goes on.
pub proof fn law_ended(s: Shell)
    ensures
        reaction(s, Event::Ended(true)).1 == seq![
            Act::RestoreHosts,
            Act::ShowRunning(false),
            Act::Exit(1),
        ],
        reaction(s, Event::Ended(true)).0.quit,
        reaction(s, Event::Ended(false)).1 == seq![Act::ShowRunning(false)],
        reaction(s, Event::Ended(false)).0.quit == s.quit,
        forall|failed: bool|
            #![trigger reaction(s, Event::Ended(failed))]
            !reaction(s, Event::Ended(failed)).0.running && reaction(
                s,
                Event::Ended(failed),
            ).0.light_mode == s.light_mode && reaction(s, Event::Ended(failed)).0.light_close
                == s.light_close,
{
}

/// To show the window is to show the one that is there, or else to make one, and nothing more; the
/// program keeps a window from then on, and the menu shows it where that is new.
pub proof fn law_shown(s: Shell, window: bool)
    ensures
        ({
            let (after, acts) = reaction(s, Event::Show(window));
            &&& acts.last() == if window {
                Act::ShowWindow
            } else {
                Act::BuildWindow
            }
            &&& s.light_mode ==> acts.len() == 2 && acts[0] == Act::CheckLight(false)
            &&& !s.light_mode ==> acts.len() == 1
            &&& !after.light_mode
            &&& after.running == s.running && after.light_close == s.light_close && after.quit == s.quit
        }),
{
}

/// To choose the entry to keep no window closes the one that is there, and that is noted; to choose
/// it again shows the one that is there, or makes one. The menu shows which it is.
pub proof fn law_light(s: Shell, window: bool)
    ensures
        ({
            let (after, acts) = reaction(s, Event::Light(window));
            &&& after.light_mode == !s.light_mode
            &&& acts.len() > 0 && acts[0] == Act::CheckLight(!s.light_mode)
            &&& s.light_mode ==> acts.len() == 2 && acts[1] == (if window {
                Act::ShowWindow
            } else {
                Act::BuildWindow
            })
            &&& !s.light_mode && window ==> acts.len() == 2 && acts[1] == Act::CloseWindow
            &&& !s.light_mode && !window ==> acts.len() == 1
            &&& after.light_close == (s.light_close || (!s.light_mode && window))
            &&& after.running == s.running && after.quit == s.quit
        }),
{
}

/// To quit ends the program with the code 0; where the proxy runs, it is told to stop and the block
/// is taken out of the hosts file first.
pub proof fn law_quit(s: Shell)
    ensures
        s.running ==> reaction(s, Event::Quit).1 == seq![
            Act::SendStop,
            Act::RestoreHosts,
            Act::Exit(0),
        ],
        !s.running ==> reaction(s, Event::Quit).1 == seq![Act::Exit(0)],
        reaction(s, Event::Quit).0 == (Shell { quit: true, ..s }),
{
}

/// A window that is to be closed is hidden and the program stays up, unless it is closed because the
/// program is to keep none; the program ends where it may, and else stays up. Neither changes
/// anything else.
pub proof fn law_closing(s: Shell)
    ensures
        !s.light_close ==> reaction(s, Event::CloseRequested) == (s, seq![Act::StayUp, Act::HideWindow]),
        s.light_close ==> reaction(s, Event::CloseRequested) == (
            Shell { light_close: false, ..s },
            Seq::<Act>::empty(),
        ),
        s.quit ==> reaction(s, Event::ExitRequested) == (s, Seq::<Act>::empty()),
        !s.quit ==> reaction(s, Event::ExitRequested) == (s, seq![Act::StayUp]),
{
}

/// Before anything happened nothing runs, the program keeps a window, and may not end.
pub proof fn law_idle()
    ensures
        !idle().running && !idle().light_mode && !idle().light_close && !idle().quit,
{
}

/// Each entry of the menu stands for its event, and no other name for any.
pub proof fn law_menu(id: Seq<char>, window: bool)
    ensures
        menu_event("show"@, window) == Some(Event::Show(window)),
        menu_event("toggle"@, window) == Some(Event::Toggle),
        menu_event("light"@, window) == Some(Event::Light(window)),
        menu_event("quit"@, window) == Some(Event::Quit),
        menu_event(id, window) is Some ==> id == "show"@ || id == "toggle"@ || id == "light"@ || id
            == "quit"@,
        toggle_text(true) == "停止"@,
        toggle_text(false) == "启动"@,
{
    reveal_strlit("show");
    reveal_strlit("toggle");
    reveal_strlit("light");
    reveal_strlit("quit");
    assert("show"@[0] == 's' && "quit"@[0] == 'q' && "light"@[0] == 'l' && "toggle"@[0] == 't');
}

} // verus!

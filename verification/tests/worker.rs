use textwrap::dedent;
use vim_profiler::command::Command;
use vim_profiler::error::Error;
use vim_profiler::plugin::Plugin;
use vim_profiler::worker::{Event, Step, Worker};

fn nanos(millis: f64) -> u64 {
    (millis * 1_000_000.0).round() as u64
}

fn lookup(data: &[(String, u64)], key: &str) -> u64 {
    data.iter().find(|(name, _)| name == key).unwrap().1
}

#[test]
fn plugin_directory() {
    let content = r#"
      042.203  011.313  010.704: sourcing /usr/local/Cellar/neovim/0.5.0/share/nvim/runtime/filetype.vim
      065.646  001.389  000.393: sourcing /usr/local/Cellar/neovim/0.5.0/share/nvim/runtime/syntax/syntax.vim
      038.356  000.029  000.029: sourcing /Users/.vim/plugged/vim-prettier/ftdetect/graphql.vim
      039.955  000.028  000.028: sourcing /Users/.vim/plugged/vim-polyglot/ftdetect/polyglot.vim
      040.327  000.058  000.058: sourcing /Users/.vim/plugged/vim-markdown/ftdetect/markdown.vim
      040.530  000.048  000.048: sourcing /Users/.vim/plugged/rust.vim/ftdetect/rust.vim
    "#;

    let worker = Worker::new(Command::Vim, 1, false, None);
    assert_eq!(
        worker.plugin_directory(&dedent(content)).unwrap().unwrap(),
        "/Users/.vim/plugged"
    );
}

#[test]
fn plugin_directory_empty_content() {
    let worker = Worker::new(Command::Vim, 1, false, None);
    assert!(worker.plugin_directory("").unwrap().is_none());
}

#[test]
fn parse() {
    let content = r#"
      038.356  000.029  000.029: sourcing /Users/.vim/plugged/vim-prettier/ftdetect/graphql.vim
      039.955  000.028  000.028: sourcing /Users/.vim/plugged/vim-polyglot/ftdetect/polyglot.vim
      040.327  000.058  000.058: sourcing /Users/.vim/plugged/vim-markdown/ftdetect/markdown.vim
      040.530  000.048  000.048: sourcing /Users/.vim/plugged/rust.vim/ftdetect/rust.vim
    "#;

    let cases = vec![
        ("vim-prettier", 0.029),
        ("vim-polyglot", 0.028),
        ("vim-markdown", 0.058),
        ("rust.vim", 0.048),
    ];

    let worker = Worker::new(Command::Vim, 1, false, None);
    let data = worker.parse(&dedent(content)).unwrap();

    println!("{:?}", data);

    assert_eq!(data.len(), cases.len());
    for (key, value) in cases {
        assert_eq!(lookup(&data, key), nanos(value));
    }
}

fn trace(lines: &[(&str, &str)]) -> String {
    let mut text = String::new();
    for (time, plugin) in lines {
        text.push_str(&format!(
            "040.000  {time}  {time}: sourcing /home/me/.vim/plugged/{plugin}/plugin/main.vim\n"
        ));
    }
    text
}

fn samples<'a>(plugins: &'a [Plugin], name: &str) -> Option<&'a Vec<u64>> {
    plugins.iter().find(|p| p.name == name).map(|p| &p.times)
}

/// Drives a run over the given traces, one per launch, as a caller with a
/// working editor and file system would.
fn drive(worker: &Worker, traces: &[String]) -> Step {
    let mut step = worker.start();
    let mut launches = 0;
    loop {
        let event = match &step {
            Step::Launch(_) => {
                launches += 1;
                Event::Exited { success: true }
            }
            Step::Read(_) => Event::TraceRead { content: Some(traces[launches - 1].clone()) },
            Step::Remove(_) => Event::TraceRemoved { success: true },
            Step::Finish(_) | Step::Fail(_) => return step,
        };
        step = step.next(event);
    }
}

#[test]
fn a_plugin_absent_from_a_launch_gets_no_sample_for_it() {
    let traces = vec![
        trace(&[("000.010", "always"), ("000.200", "sometimes")]),
        trace(&[("000.020", "always")]),
        trace(&[("000.030", "always"), ("000.400", "sometimes")]),
    ];
    let worker = Worker::new(Command::Vim, 3, false, None);
    match drive(&worker, &traces) {
        Step::Finish(plugins) => {
            assert_eq!(plugins.len(), 2);
            assert_eq!(samples(&plugins, "always"), Some(&vec![10_000, 20_000, 30_000]));
            assert_eq!(samples(&plugins, "sometimes"), Some(&vec![200_000, 400_000]));
        }
        other => panic!("the run ended with {:?}", other),
    }
}

#[test]
fn no_launch_gives_no_plugins() {
    for iter in [0, -1, i64::MIN] {
        let worker = Worker::new(Command::Neovim, iter, true, None);
        match worker.start() {
            Step::Finish(plugins) => assert!(plugins.is_empty()),
            other => panic!("the run began with {:?}", other),
        }
    }
}

#[test]
fn a_run_launches_as_often_as_asked() {
    let worker = Worker::new(Command::Vim, 4, false, None);
    let text = trace(&[("000.001", "p")]);
    let mut step = worker.start();
    let mut launches = 0;
    loop {
        let event = match &step {
            Step::Launch(_) => {
                launches += 1;
                Event::Exited { success: true }
            }
            Step::Read(_) => Event::TraceRead { content: Some(text.clone()) },
            Step::Remove(_) => Event::TraceRemoved { success: true },
            Step::Finish(plugins) => {
                assert_eq!(samples(plugins, "p"), Some(&vec![1_000; 4]));
                break;
            }
            Step::Fail(e) => panic!("the run failed with {:?}", e),
        };
        step = step.next(event);
    }
    assert_eq!(launches, 4);
}

#[test]
fn a_failed_launch_ends_the_run() {
    let worker = Worker::new(Command::Vim, 2, false, None);
    let step = worker.start().next(Event::Exited { success: false });
    assert!(matches!(step, Step::Fail(Error::StartupTime)));
}

#[test]
fn an_unreadable_trace_ends_the_run() {
    let worker = Worker::new(Command::Vim, 2, false, None);
    let step = worker
        .start()
        .next(Event::Exited { success: true })
        .next(Event::TraceRead { content: None });
    assert!(matches!(step, Step::Fail(Error::ReadLog)));
}

#[test]
fn a_trace_without_plugins_ends_the_run() {
    let worker = Worker::new(Command::Vim, 2, false, None);
    let step = worker
        .start()
        .next(Event::Exited { success: true })
        .next(Event::TraceRead { content: Some(String::new()) });
    assert!(matches!(step, Step::Fail(Error::PluginDirectory)));
}

#[test]
fn a_malformed_time_ends_the_run() {
    let worker = Worker::new(Command::Vim, 2, false, None);
    let text = trace(&[("000.010", "fine"), ("000x020", "broken")]);
    let step = worker
        .start()
        .next(Event::Exited { success: true })
        .next(Event::TraceRead { content: Some(text) });
    assert!(matches!(step, Step::Fail(Error::NumericParse)));
}

#[test]
fn a_trace_that_stays_ends_the_run() {
    let worker = Worker::new(Command::Vim, 2, false, None);
    let step = worker
        .start()
        .next(Event::Exited { success: true })
        .next(Event::TraceRead { content: Some(trace(&[("000.010", "p")])) })
        .next(Event::TraceRemoved { success: false });
    assert!(matches!(step, Step::Fail(Error::RemoveLog)));
}

#[test]
fn an_event_that_is_not_waited_for_changes_nothing() {
    let worker = Worker::new(Command::Vim, 1, false, None);
    let step = worker.start().next(Event::TraceRemoved { success: true });
    match &step {
        Step::Launch(progress) => {
            assert_eq!(progress.left, 0);
            assert!(progress.plugins.is_empty());
        }
        other => panic!("the run went on to {:?}", other),
    }
    let step = step.next(Event::TraceRead { content: None });
    assert!(matches!(step, Step::Launch(_)));
    let failed = Step::Fail(Error::ReadLog).next(Event::Exited { success: true });
    assert!(matches!(failed, Step::Fail(Error::ReadLog)));
    let done = Step::Finish(Vec::new()).next(Event::Exited { success: true });
    assert!(matches!(done, Step::Finish(_)));
}

#[test]
fn arguments_ask_for_a_trace_and_a_quick_exit() {
    let worker = Worker::new(Command::Vim, 1, false, Some(String::from("notes.md")));
    assert_eq!(
        worker.arguments(),
        vec!["notes.md", "--startuptime", "vim.log", "-f", "-c", "q"]
    );
    let worker = Worker::new(Command::Vim, 1, false, None);
    assert_eq!(worker.arguments(), vec!["", "--startuptime", "vim.log", "-f", "-c", "q"]);
}

#[test]
fn worker_keeps_what_it_is_given() {
    let worker = Worker::new(Command::Neovim, 7, true, Some(String::from("a.txt")));
    assert!(matches!(worker.command, Command::Neovim));
    assert_eq!(worker.iter, 7);
    assert!(worker.sys);
    assert_eq!(worker.file.as_deref(), Some("a.txt"));
}

use artifice_installer::installation::{ConfigSrc, InstallationSrc, TaskError, TaskResult};
use artifice_installer::{Installer, Task};
use std::cell::RefCell;
use std::sync::Arc;
use std::time::Duration;

type Body = fn(Arc<i32>) -> Result<(), TaskError>;

fn succeeds(_db: Arc<i32>) -> Result<(), TaskError> {
    Ok(())
}

fn breaks(_db: Arc<i32>) -> Result<(), TaskError> {
    Err(TaskError::new("no room on the device"))
}

#[test]
fn task_run_success_returns_name_and_id() {
    let task: Task<Body> = Task::new(4, "create_dirs", succeeds);
    assert_eq!(task.name(), "create_dirs".to_string());
    assert_eq!(task.id(), 4);
    let r = task.run(Arc::new(0));
    assert_eq!(r, Ok(("create_dirs".to_string(), 4)));
}

#[test]
fn task_run_failure_carries_name_id_and_error() {
    let task: Task<Body> = Task::new(5, "copy_configs", breaks);
    let r = task.run(Arc::new(0));
    match r {
        Err((pair, e)) => {
            assert_eq!(pair, ("copy_configs".to_string(), 5));
            assert_eq!(e.message(), "no room on the device".to_string());
        }
        Ok(_) => panic!("the failing body must fail the task"),
    }
}

#[test]
fn task_error_keeps_its_message() {
    let e = TaskError::new("what went wrong");
    assert_eq!(e.message(), "what went wrong".to_string());
}

#[test]
fn installer_starts_with_empty_config_src() {
    let installer: Installer<Body, Arc<i32>, u8> =
        Installer::new(InstallationSrc::NewCompiled, Arc::new(0), 4, Duration::from_secs(5));
    assert!(matches!(installer.config_src, ConfigSrc::Empty));
    assert_eq!(installer.install_src, InstallationSrc::NewCompiled);
    assert_eq!(installer.schedule.thread_count, 4);
    assert_eq!(installer.schedule.timeout, Duration::from_secs(5));
    assert_eq!(installer.schedule.tasks.len(), 0);
}

#[test]
fn installer_config_src_is_fluent() {
    let installer: Installer<Body, Arc<i32>, u8> =
        Installer::new(InstallationSrc::NewFromSrc, Arc::new(0), 1, Duration::from_secs(5))
            .config_src(ConfigSrc::UpStream("upstream.example".to_string()));
    match &installer.config_src {
        ConfigSrc::UpStream(s) => assert_eq!(s, "upstream.example"),
        _ => panic!("the configuration source must have been replaced"),
    }
    assert_eq!(installer.install_src, InstallationSrc::NewFromSrc);
}

#[test]
fn installer_runs_its_tasks_against_the_shared_target() {
    let mut installer: Installer<Body, Arc<i32>, u8> =
        Installer::new(InstallationSrc::NewCompiled, Arc::new(41), 1, Duration::from_secs(5));
    installer.add_task(Task::new(1, "create", succeeds));
    installer.add_task(Task::new(2, "fill", succeeds));
    assert_eq!(installer.schedule.tasks.len(), 2);

    // Run the tasks in place of a worker: each launch executes the task at
    // once against its clone of the handle and queues the completion.
    let completions: RefCell<Vec<Option<TaskResult>>> = RefCell::new(Vec::new());
    let r = installer.run(
        |t: Task<Body>, db: Arc<i32>| {
            assert_eq!(*db, 41);
            completions.borrow_mut().push(Some(t.run(db)));
        },
        || completions.borrow_mut().remove(0),
    );
    // Tasks go out in reverse registration order, so "create" reports last.
    assert_eq!(r, Ok(("create".to_string(), 1)));
}

#[test]
fn installer_returns_the_first_failure() {
    let mut installer: Installer<Body, Arc<i32>, u8> =
        Installer::new(InstallationSrc::NewCompiled, Arc::new(0), 1, Duration::from_secs(5));
    installer.add_task(Task::new(1, "create", succeeds));
    installer.add_task(Task::new(2, "copy", breaks));
    let completions: RefCell<Vec<Option<TaskResult>>> = RefCell::new(Vec::new());
    let r = installer.run(
        |t: Task<Body>, db: Arc<i32>| {
            completions.borrow_mut().push(Some(t.run(db)));
        },
        || completions.borrow_mut().remove(0),
    );
    match r {
        Err((pair, e)) => {
            assert_eq!(pair, ("copy".to_string(), 2));
            assert_eq!(e.message(), "no room on the device".to_string());
        }
        Ok(_) => panic!("a failing task must fail the whole installation"),
    }
}

use eva_motion_control::task::message::Value;
use eva_motion_control::task::reader::ValueType;
use eva_motion_control::task::{AddImage, Effect, MotionType, Poll, Setback, Status, Task};

#[derive(Default)]
struct Inbox {
    images: Vec<(Vec<u8>, String)>,
    statuses: Vec<String>,
}

impl AddImage for Inbox {
    fn add_image(&mut self, image: Vec<u8>, filename: String) {
        self.images.push((image, filename));
    }

    fn change_status(&mut self, status: String) {
        self.statuses.push(status);
    }
}

fn device_keys() -> Vec<(&'static str, ValueType)> {
    vec![
        ("_", ValueType::Bool),
        ("_", ValueType::Bool),
        ("_", ValueType::Bool),
        ("Y_TRIGGER", ValueType::Bool),
        ("X_TRIGGER", ValueType::Bool),
        ("Y_REST_STATE", ValueType::Bool),
        ("X_REST_STATE", ValueType::Bool),
        ("LIGHT", ValueType::Bool),
        ("X_POSITION", ValueType::Float),
        ("Y_POSITION", ValueType::Float),
        ("SPEED", ValueType::Float),
    ]
}

fn sent(effect: &Effect) -> Vec<u8> {
    match effect {
        Effect::Send(bytes) => bytes.clone(),
        _ => panic!("not a send"),
    }
}

fn awaited(effect: &Effect) -> Vec<(&'static str, Value)> {
    match effect {
        Effect::Await(conditions) => conditions.clone(),
        _ => panic!("not an await"),
    }
}

#[test]
fn start_only_from_fresh_pending() {
    let mut task = Task::new(Inbox::default(), device_keys());
    assert_eq!(task.status, Status::Pending);
    assert_eq!(task.start(), Ok(()));
    assert_eq!(task.status, Status::Working);
    assert_eq!(task.start(), Err("Task is not pending"));
    assert_eq!(task.status, Status::Working);
}

#[test]
fn move_to_plans_two_frames_and_two_waits() {
    let mut task = Task::new(Inbox::default(), device_keys());
    let (x, y, s) = (15.0f32.to_bits(), 13.0f32.to_bits(), 20.0f32.to_bits());
    task.add(MotionType::MoveTo(x, y, s));
    task.start().unwrap();
    let effects = task.plan_step().unwrap();
    assert_eq!(effects.len(), 4);
    assert_eq!(
        sent(&effects[0]),
        vec![0b0000_0001, 0x41, 0x70, 0, 0, 0x41, 0x50, 0, 0, 0x41, 0xA0, 0, 0]
    );
    assert_eq!(
        awaited(&effects[1]),
        vec![
            ("X_POSITION", Value::Float(x)),
            ("Y_POSITION", Value::Float(y)),
            ("LIGHT", Value::Bool(true)),
            ("SPEED", Value::Float(s)),
        ]
    );
    assert_eq!(sent(&effects[2])[0], 0b0001_1001);
    assert_eq!(awaited(&effects[3]).len(), 6);
    assert_eq!(awaited(&effects[3])[5], ("Y_TRIGGER", Value::Bool(true)));
}

#[test]
fn reset_light_and_camera_plans() {
    let mut task = Task::new(Inbox::default(), device_keys());
    task.add(MotionType::Reset);
    task.add(MotionType::Light(false));
    task.add(MotionType::InitCamera);
    task.add(MotionType::Capture);
    task.add(MotionType::StopCamera);
    task.add(MotionType::Stop);
    task.add(MotionType::GoOnIf(vec![("Y_TRIGGER", Value::Bool(true))]));
    task.start().unwrap();

    let reset = task.plan_step().unwrap();
    assert_eq!(sent(&reset[0])[0], 0b0000_0110);
    assert!(matches!(reset[1], Effect::Pause(100)));
    assert_eq!(
        awaited(&reset[2]),
        vec![("X_FINISHED", Value::Bool(true)), ("Y_FINISHED", Value::Bool(true))]
    );
    assert!(!task.finish_step());

    let light = task.plan_step().unwrap();
    assert_eq!(sent(&light[0])[0], 0);
    assert_eq!(awaited(&light[1]), vec![("LIGHT", Value::Bool(false))]);
    task.finish_step();

    let camera = task.plan_step().unwrap();
    assert!(matches!(camera[0], Effect::StartCamera));
    assert!(matches!(camera[1], Effect::Pause(10000)));
    task.finish_step();

    assert!(matches!(task.plan_step().unwrap()[0], Effect::Capture));
    task.finish_step();
    assert!(matches!(task.plan_step().unwrap()[0], Effect::StopCamera));
    task.finish_step();
    assert!(task.plan_step().unwrap().is_empty());
    task.finish_step();
    assert_eq!(awaited(&task.plan_step().unwrap()[0]), vec![("Y_TRIGGER", Value::Bool(true))]);
    assert!(task.finish_step());
    assert_eq!(task.status, Status::Done);
    assert_eq!(task.plan_step().err(), Some("Task is Done"));
}

#[test]
fn failed_task_refuses_to_run() {
    let mut task = Task::new(Inbox::default(), device_keys());
    task.add(MotionType::Stop);
    task.start().unwrap();
    assert_eq!(task.confirmation_timed_out(), "Arguments confirmation timeout");
    assert_eq!(task.status, Status::Fail);
    assert_eq!(task.plan_step().err(), Some("Task Failed"));
}

#[test]
fn camera_failures_fail_the_task() {
    let mut task = Task::new(Inbox::default(), device_keys());
    assert_eq!(task.camera_failed(), "Cannot start camera");
    assert_eq!(task.status, Status::Fail);
    let mut task = Task::new(Inbox::default(), device_keys());
    assert_eq!(task.capture_failed(), "Cannot connect to camera");
    assert_eq!(task.status, Status::Fail);
    assert!(task.image_receiver.statuses.is_empty());
}

#[test]
fn images_are_numbered() {
    let mut task = Task::new(Inbox::default(), device_keys());
    assert_eq!(task.store_image(vec![1, 2, 3]), (vec![1, 2, 3], "0.png".to_string()));
    assert_eq!(task.store_image(vec![4]), (vec![4], "1.png".to_string()));
    assert_eq!(task.current_image, 2);
    assert!(task.image_receiver.images.is_empty());
}

#[test]
fn polling_confirms_waits_and_times_out() {
    let mut task = Task::new(Inbox::default(), device_keys());
    task.add(MotionType::Stop);
    task.start().unwrap();
    let confirmed = vec![0b0000_0001u8, 0, 0, 0, 0, 0, 0, 0, 0, 0, 0, 0, 0];
    let unconfirmed = vec![0u8; 13];
    let wanted = vec![("LIGHT", Value::Bool(true))];
    assert!(matches!(task.poll_confirmation(Some(unconfirmed.clone()), &wanted, 3), Some(Poll::Waiting)));
    assert!(matches!(task.poll_confirmation(None, &wanted, 10), Some(Poll::Waiting)));
    assert!(matches!(task.poll_confirmation(Some(confirmed.clone()), &wanted, 10), Some(Poll::Confirmed)));
    assert_eq!(task.status, Status::Working);
    assert!(task.poll_confirmation(Some(vec![0u8; 12]), &wanted, 3).is_none());
    match task.poll_confirmation(Some(confirmed), &wanted, 11) {
        Some(Poll::TimedOut(reason)) => assert_eq!(reason, "Arguments confirmation timeout"),
        _ => panic!("expected a timeout"),
    }
    assert_eq!(task.status, Status::Fail);
}

#[test]
fn conditions_are_checked_against_the_loaded_state() {
    let mut task = Task::new(Inbox::default(), device_keys());
    let mut states = vec![0b0000_0001u8, 0x41, 0x70, 0, 0, 0, 0, 0, 0, 0, 0, 0, 0];
    let wanted = vec![("LIGHT", Value::Bool(true)), ("X_POSITION", Value::Float(15.0f32.to_bits()))];
    assert_eq!(task.conditions_hold(&mut states, &wanted), Some(true));
    let not_yet = vec![("LIGHT", Value::Bool(true)), ("X_TRIGGER", Value::Bool(true))];
    assert_eq!(task.conditions_hold(&mut states, &not_yet), Some(false));
    let unknown = vec![("X_FINISHED", Value::Bool(true))];
    assert_eq!(task.conditions_hold(&mut states, &unknown), Some(false));
}

#[test]
fn conditions_that_cannot_be_read_give_none() {
    let mut task = Task::new(Inbox::default(), device_keys());
    let mut short = vec![0u8; 12];
    let wanted = vec![("LIGHT", Value::Bool(true))];
    assert_eq!(task.conditions_hold(&mut short, &wanted), None);
    let mut states = vec![0u8; 13];
    let wrong_kind = vec![("SPEED", Value::Int(1))];
    assert_eq!(task.conditions_hold(&mut states, &wrong_kind), None);
}

#[test]
fn invoke_frame_carries_flags_and_floats() {
    let task = Task::new(Inbox::default(), device_keys());
    let bytes = task.invoke(
        vec![false, false, false, false, false, true, true, false],
        vec![0, 0, 1.0f32.to_bits()],
    );
    assert_eq!(bytes, vec![0b0000_0110, 0, 0, 0, 0, 0, 0, 0, 0, 0x3F, 0x80, 0, 0]);
}

#[test]
fn failed_effects_set_the_step_back() {
    let mut task = Task::new(Inbox::default(), device_keys());
    task.add(MotionType::Light(true));
    task.start().unwrap();
    let effects = task.plan_step().unwrap();
    match task.effect_failed(&effects[0]) {
        Setback::Abort(error) => assert_eq!(error, "Cannot send data"),
        _ => panic!("expected an abort"),
    }
    assert_eq!(task.status, Status::Working);
    assert_eq!(task.current_step, 0);
    match task.effect_failed(&Effect::StartCamera) {
        Setback::Failed { reason, skip_rest } => {
            assert_eq!(reason, "Cannot start camera");
            assert!(skip_rest);
        }
        _ => panic!("expected a failure"),
    }
    assert_eq!(task.status, Status::Fail);
    match task.effect_failed(&Effect::Capture) {
        Setback::Failed { reason, skip_rest } => {
            assert_eq!(reason, "Cannot connect to camera");
            assert!(!skip_rest);
        }
        _ => panic!("expected a failure"),
    }
    assert_eq!(task.current_step, 0);
}

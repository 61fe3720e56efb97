use std::sync::Arc;

use streaming_core::task_service::{
    CreateTaskRequest, CreateTaskResponse, TaskServiceImpl, create_task_reply,
};

#[test]
fn fired_task_is_answered_without_status() {
    let service = TaskServiceImpl::new(Arc::new(String::from("manager")), 7u32);
    let fire = |mgr: &Arc<String>, env: u32, task_id: u64, plan: String| {
        assert_eq!(mgr.as_str(), "manager");
        assert_eq!((env, task_id, plan.as_str()), (7, 42, "plan"));
        Ok::<(), String>(())
    };
    let request = CreateTaskRequest { task_id: 42u64, plan: String::from("plan") };
    let reply = service.create_task(request, &fire, &|e: String| e.len());
    assert_eq!(reply, Ok(CreateTaskResponse { status: None }));
}

#[test]
fn failed_task_is_answered_with_its_status() {
    let service = TaskServiceImpl::new(Arc::new(()), 0u8);
    let fire = |_: &Arc<()>, _: u8, task_id: u64, _: ()| {
        Err::<(), String>(format!("task {task_id} exists"))
    };
    let request = CreateTaskRequest { task_id: 9u64, plan: () };
    let reply = service.create_task(request, &fire, &|e: String| format!("status: {e}"));
    assert_eq!(reply, Err(String::from("status: task 9 exists")));
}

struct Manager {
    name: String,
}

#[test]
fn copies_of_a_service_share_the_manager() {
    let manager = Arc::new(Manager { name: String::from("shared") });
    let service = TaskServiceImpl::new(manager.clone(), vec![1u8, 2]);
    let copy = service.clone();
    assert_eq!(Arc::strong_count(&manager), 3);
    let fire = |mgr: &Arc<Manager>, env: Vec<u8>, _: (), _: ()| {
        assert_eq!(mgr.name, "shared");
        assert_eq!(env, vec![1, 2]);
        Ok::<(), ()>(())
    };
    let request = CreateTaskRequest { task_id: (), plan: () };
    let reply = copy.create_task(request, &fire, &|e: ()| e);
    assert_eq!(reply, Ok(CreateTaskResponse { status: None }));
}

#[test]
fn reply_follows_the_outcome() {
    let status = |e: u32| e + 1;
    assert_eq!(
        create_task_reply(Ok::<&str, u32>("fired"), &status),
        Ok(CreateTaskResponse { status: None })
    );
    assert_eq!(create_task_reply(Err::<&str, u32>(4), &status), Err(5));
}

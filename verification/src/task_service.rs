//! The service that creates tasks on behalf of remote callers.

use std::sync::Arc;
use vstd::prelude::*;

verus! {

/// Serves requests for tasks with a task manager `M`, in an environment `E`.
pub struct TaskServiceImpl<M, E> {
    mgr: Arc<M>,
    env: E,
}

/// A request to create a task: the id of the task and the plan that it runs.
pub struct CreateTaskRequest<T, P> {
    pub task_id: T,
    pub plan: P,
}

/// What went wrong with a task.
#[derive(Debug, PartialEq, Eq)]
pub struct TaskStatus {
    pub code: i32,
    pub message: String,
}

/// The reply to a request to create a task.
#[derive(Debug, PartialEq, Eq)]
pub struct CreateTaskResponse {
    pub status: Option<TaskStatus>,
}

/// Whether `reply` answers a request whose task was fired with the given outcome: no status if
/// it was fired, and otherwise what `to_grpc_status` makes of the error.
pub open spec fn answers<O, X, G, C: Fn(X) -> G>(
    outcome: Result<O, X>,
    to_grpc_status: C,
    reply: Result<CreateTaskResponse, G>,
) -> bool {
    match outcome {
        Ok(_) => reply == Ok::<CreateTaskResponse, G>(CreateTaskResponse { status: None }),
        Err(e) => reply matches Err(status) && call_ensures(to_grpc_status, (e,), status),
    }
}

/// A request whose task was fired is answered without a status.
pub proof fn law_fired_task_has_no_status<O, X, G, C: Fn(X) -> G>(
    output: O,
    to_grpc_status: C,
    reply: Result<CreateTaskResponse, G>,
)
    requires
        answers(Ok::<O, X>(output), to_grpc_status, reply),
    ensures
        reply is Ok,
        reply->Ok_0.status is None,
{
}

/// A request whose task could not be fired is answered with a status that is made of the error.
pub proof fn law_failed_task_has_the_status_of_its_error<O, X, G, C: Fn(X) -> G>(
    error: X,
    to_grpc_status: C,
    reply: Result<CreateTaskResponse, G>,
)
    requires
        answers(Err::<O, X>(error), to_grpc_status, reply),
    ensures
        reply is Err,
        call_ensures(to_grpc_status, (error,), reply->Err_0),
{
}

/// Answers a request whose task was fired with the given outcome.
pub fn create_task_reply<O, X, G, C: Fn(X) -> G>(
    outcome: Result<O, X>,
    to_grpc_status: &C,
) -> (reply: Result<CreateTaskResponse, G>)
    requires
        outcome matches Err(e) ==> call_requires(*to_grpc_status, (e,)),
    ensures
        answers(outcome, *to_grpc_status, reply),
{
    match outcome {
        Ok(_) => Ok(CreateTaskResponse { status: None }),
        Err(e) => Err(to_grpc_status(e)),
    }
}

impl<M, E> TaskServiceImpl<M, E> {
    /// The task manager.
    pub closed spec fn manager(self) -> Arc<M> {
        self.mgr
    }

    /// The environment that tasks run in.
    pub closed spec fn environment(self) -> E {
        self.env
    }

    /// A service for the given task manager and environment.
    pub fn new(mgr: Arc<M>, env: E) -> (service: Self)
        ensures
            service.manager() == mgr,
            service.environment() == env,
    {
        TaskServiceImpl { mgr, env }
    }
}

impl<M, E: Clone> Clone for TaskServiceImpl<M, E> {
    fn clone(&self) -> (copy: Self)
        ensures
            copy.manager() == self.manager(),
            cloned(self.environment(), copy.environment()),
    {
        TaskServiceImpl { mgr: self.mgr.clone(), env: self.env.clone() }
    }
}

impl<M, E: Clone> TaskServiceImpl<M, E> {
    /// Creates a task: `fire_task` fires it with the task manager, in a copy of the environment.
    pub fn create_task<
        T,
        P,
        O,
        X,
        G,
        F: Fn(&Arc<M>, E, T, P) -> Result<O, X>,
        C: Fn(X) -> G,
    >(
        &self,
        request: CreateTaskRequest<T, P>,
        fire_task: &F,
        to_grpc_status: &C,
    ) -> (reply: Result<CreateTaskResponse, G>)
        requires
            forall|env: E|
                cloned(self.environment(), env) ==> #[trigger] call_requires(
                    *fire_task,
                    (&self.manager(), env, request.task_id, request.plan),
                ),
            forall|env: E, e: X|
                cloned(self.environment(), env) && #[trigger] call_ensures(
                    *fire_task,
                    (&self.manager(), env, request.task_id, request.plan),
                    Err(e),
                ) ==> call_requires(*to_grpc_status, (e,)),
        ensures
            exists|env: E, outcome: Result<O, X>|
                {
                    &&& cloned(self.environment(), env)
                    &&& #[trigger] call_ensures(
                        *fire_task,
                        (&self.manager(), env, request.task_id, request.plan),
                        outcome,
                    )
                    &&& answers(outcome, *to_grpc_status, reply)
                },
    {
        let env = self.env.clone();
        assert(cloned(self.environment(), env));
        assert(call_requires(
            *fire_task,
            (&self.manager(), env, request.task_id, request.plan),
        ));
        let outcome = fire_task(&self.mgr, env, request.task_id, request.plan);
        create_task_reply(outcome, to_grpc_status)
    }
}

} // verus!

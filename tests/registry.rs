use std::cell::Cell;
use std::rc::Rc;

use mcp_registry::capability::{Capability, McpError, Prompt, RemoteMcpServer, Resource, Tool};
use mcp_registry::registry::McpServer;
use serde_json::Value;

type ToolFn = Box<dyn Fn(Value) -> Result<Value, String>>;
type ResourceFn = Box<dyn Fn() -> Result<String, String>>;
type PromptFn = Box<dyn Fn(Value) -> Result<Vec<Value>, String>>;
type Server = McpServer<ToolFn, ResourceFn, PromptFn>;
type Cap = Capability<ToolFn, ResourceFn, PromptFn>;

fn resource(name: &str, content: &str) -> Cap {
    let content = content.to_string();
    Capability::Resource(Resource {
        name: name.to_string(),
        description: "a resource".to_string(),
        path: format!("mem://{}", name),
        handler: Box::new(move || Ok(content.clone())),
    })
}

fn counted_resource(name: &str, content: &str, calls: Rc<Cell<u32>>) -> Cap {
    let content = content.to_string();
    Capability::Resource(Resource {
        name: name.to_string(),
        description: "a counted resource".to_string(),
        path: String::new(),
        handler: Box::new(move || {
            calls.set(calls.get() + 1);
            Ok(content.clone())
        }),
    })
}

fn echo_tool(name: &str, calls: Rc<Cell<u32>>) -> Cap {
    Capability::Tool(Tool {
        name: name.to_string(),
        description: "returns its input".to_string(),
        input_schema: Value::Null,
        handler: Box::new(move |v| {
            calls.set(calls.get() + 1);
            Ok(v)
        }),
    })
}

fn prompt(name: &str, calls: Rc<Cell<u32>>) -> Cap {
    Capability::Prompt(Prompt {
        name: name.to_string(),
        description: "a prompt".to_string(),
        template: "Say {x}".to_string(),
        handler: Box::new(move |v| {
            calls.set(calls.get() + 1);
            Ok(vec![v])
        }),
    })
}

fn peer(id: &str) -> RemoteMcpServer {
    RemoteMcpServer { id: id.to_string(), url: format!("http://{}.example", id) }
}

fn no_transport(_: &RemoteMcpServer, _: &str) -> Result<String, String> {
    Err("no transport".to_string())
}

#[test]
fn registered_name_listed_once() {
    let mut server: Server = McpServer::new();
    server.register_capability(resource("readme", "a"));
    server.register_capability(resource("readme", "b"));
    server.register_capability(resource("other", "c"));
    server.register_capability(resource("readme", "d"));
    let names = server.list_capabilities();
    assert_eq!(names.iter().filter(|n| n.as_str() == "readme").count(), 1);
    assert_eq!(names, vec!["readme".to_string(), "other".to_string()]);
}

#[test]
fn empty_registry_lists_nothing() {
    let server: Server = McpServer::new();
    assert!(server.list_capabilities().is_empty());
    assert!(server.lookup("x").is_none());
}

#[test]
fn last_write_wins_across_kinds() {
    let mut server: Server = McpServer::new();
    let first = Rc::new(Cell::new(0));
    let second = Rc::new(Cell::new(0));
    server.register_capability(counted_resource("doc", "first", first.clone()));
    server.register_capability(counted_resource("doc", "second", second.clone()));
    assert_eq!(server.fetch_capability("doc", no_transport), Ok("second".to_string()));
    assert_eq!(first.get(), 0);
    assert_eq!(second.get(), 1);
    let calls = Rc::new(Cell::new(0));
    server.register_capability(echo_tool("doc", calls.clone()));
    assert_eq!(server.fetch_capability("doc", no_transport), Err(McpError::NotFetchable("doc".to_string())));
    assert!(matches!(server.lookup("doc"), Some(Capability::Tool(_))));
    assert_eq!(server.list_capabilities().len(), 1);
}

#[test]
fn fetch_unknown_without_peers_is_not_found() {
    let server: Server = McpServer::new();
    assert_eq!(server.fetch_capability("missing", no_transport), Err(McpError::NotFound("missing".to_string())));
}

#[test]
fn fetch_tool_or_prompt_is_not_fetchable() {
    let mut server: Server = McpServer::new();
    let tool_calls = Rc::new(Cell::new(0));
    let prompt_calls = Rc::new(Cell::new(0));
    server.register_capability(echo_tool("echo", tool_calls.clone()));
    server.register_capability(prompt("greet", prompt_calls.clone()));
    assert_eq!(server.fetch_capability("echo", no_transport), Err(McpError::NotFetchable("echo".to_string())));
    assert_eq!(server.fetch_capability("greet", no_transport), Err(McpError::NotFetchable("greet".to_string())));
    assert_eq!(tool_calls.get(), 0);
    assert_eq!(prompt_calls.get(), 0);
}

#[test]
fn fetch_resource_handler_error_propagates() {
    let mut server: Server = McpServer::new();
    server.register_capability(Capability::Resource(Resource {
        name: "broken".to_string(),
        description: String::new(),
        path: String::new(),
        handler: Box::new(|| Err("disk on fire".to_string())),
    }));
    assert_eq!(
        server.fetch_capability("broken", no_transport),
        Err(McpError::HandlerFailed("disk on fire".to_string()))
    );
}

#[test]
fn execute_tool_invokes_handler_once_per_call() {
    let mut server: Server = McpServer::new();
    let calls = Rc::new(Cell::new(0));
    server.register_capability(echo_tool("echo", calls.clone()));
    let input = Value::from(42);
    assert_eq!(server.execute_tool("echo", input.clone()), Ok(input.clone()));
    assert_eq!(calls.get(), 1);
    assert_eq!(server.execute_tool("echo", Value::Bool(true)), Ok(Value::Bool(true)));
    assert_eq!(calls.get(), 2);
}

#[test]
fn execute_tool_handler_error_propagates() {
    let mut server: Server = McpServer::new();
    server.register_capability(Capability::Tool(Tool {
        name: "fail".to_string(),
        description: String::new(),
        input_schema: Value::Null,
        handler: Box::new(|_| Err("bad input".to_string())),
    }));
    assert_eq!(server.execute_tool("fail", Value::Null), Err(McpError::HandlerFailed("bad input".to_string())));
}

#[test]
fn execute_non_tool_or_unknown_is_an_error() {
    let mut server: Server = McpServer::new();
    let res_calls = Rc::new(Cell::new(0));
    let prompt_calls = Rc::new(Cell::new(0));
    server.register_capability(counted_resource("readme", "hello", res_calls.clone()));
    server.register_capability(prompt("greet", prompt_calls.clone()));
    assert_eq!(server.execute_tool("readme", Value::Null), Err(McpError::WrongVariant("readme".to_string())));
    assert_eq!(server.execute_tool("greet", Value::Null), Err(McpError::WrongVariant("greet".to_string())));
    assert_eq!(server.execute_tool("nope", Value::Null), Err(McpError::NotFound("nope".to_string())));
    assert_eq!(res_calls.get(), 0);
    assert_eq!(prompt_calls.get(), 0);
}

#[test]
fn remote_resolution_stops_at_first_success() {
    let mut server: Server = McpServer::new();
    server.add_remote_server(peer("p1"));
    server.add_remote_server(peer("p2"));
    server.add_remote_server(peer("p3"));
    let asked: Cell<Vec<String>> = Cell::new(Vec::new());
    let transport = |p: &RemoteMcpServer, n: &str| -> Result<String, String> {
        let mut log = asked.take();
        log.push(p.id.clone());
        asked.set(log);
        match p.id.as_str() {
            "p2" => Ok(format!("{} from p2", n)),
            _ => Err(format!("{} failed", p.id)),
        }
    };
    assert_eq!(server.fetch_capability("remote", transport), Ok("remote from p2".to_string()));
    assert_eq!(asked.take(), vec!["p1".to_string(), "p2".to_string()]);
}

#[test]
fn remote_resolution_all_failing_is_exhausted() {
    let mut server: Server = McpServer::new();
    server.add_remote_server(peer("p1"));
    server.add_remote_server(peer("p2"));
    let count = Cell::new(0);
    let transport = |p: &RemoteMcpServer, _: &str| -> Result<String, String> {
        count.set(count.get() + 1);
        Err(format!("{} is down", p.id))
    };
    assert_eq!(server.fetch_capability("x", transport), Err(McpError::AllPeersExhausted("x".to_string())));
    assert_eq!(count.get(), 2);
}

#[test]
fn resolve_remote_without_peers_is_exhausted() {
    let server: Server = McpServer::new();
    assert_eq!(server.resolve_remote("x", no_transport), Err(McpError::AllPeersExhausted("x".to_string())));
}

#[test]
fn duplicate_peer_id_replaces_in_place() {
    let mut server: Server = McpServer::new();
    server.add_remote_server(peer("a"));
    server.add_remote_server(peer("b"));
    server.add_remote_server(RemoteMcpServer { id: "a".to_string(), url: "http://new".to_string() });
    let asked: Cell<Vec<String>> = Cell::new(Vec::new());
    let transport = |p: &RemoteMcpServer, _: &str| -> Result<String, String> {
        let mut log = asked.take();
        log.push(p.url.clone());
        asked.set(log);
        Err("down".to_string())
    };
    assert!(server.fetch_capability("x", transport).is_err());
    assert_eq!(asked.take(), vec!["http://new".to_string(), "http://b.example".to_string()]);
}

#[test]
fn local_capability_shadows_peers() {
    let mut server: Server = McpServer::new();
    server.add_remote_server(peer("p1"));
    server.register_capability(resource("readme", "local"));
    let count = Cell::new(0);
    let transport = |_: &RemoteMcpServer, _: &str| -> Result<String, String> {
        count.set(count.get() + 1);
        Ok("remote".to_string())
    };
    assert_eq!(server.fetch_capability("readme", transport), Ok("local".to_string()));
    assert_eq!(count.get(), 0);
}

#[test]
fn readme_and_echo_scenario() {
    let mut server: Server = McpServer::new();
    server.register_capability(resource("readme", "hello"));
    server.register_capability(echo_tool("echo", Rc::new(Cell::new(0))));
    assert_eq!(server.fetch_capability("readme", no_transport), Ok("hello".to_string()));
    assert_eq!(
        server.execute_tool("echo", Value::String("hi".to_string())),
        Ok(Value::String("hi".to_string()))
    );
    assert_eq!(server.fetch_capability("echo", no_transport), Err(McpError::NotFetchable("echo".to_string())));
}

#[test]
fn resource_cache_put_and_get() {
    let mut server: Server = McpServer::new();
    assert_eq!(server.cached_resource("readme"), None);
    server.cache_resource("readme".to_string(), "v1".to_string());
    server.cache_resource("other".to_string(), "o".to_string());
    server.cache_resource("readme".to_string(), "v2".to_string());
    assert_eq!(server.cached_resource("readme"), Some("v2".to_string()));
    assert_eq!(server.cached_resource("other"), Some("o".to_string()));
    assert_eq!(server.cached_resource("none"), None);
}

#[test]
fn fetch_does_not_fill_cache() {
    let mut server: Server = McpServer::new();
    server.register_capability(resource("readme", "hello"));
    assert_eq!(server.fetch_capability("readme", no_transport), Ok("hello".to_string()));
    assert_eq!(server.cached_resource("readme"), None);
}

#[test]
fn capability_name_of_each_kind() {
    let calls = Rc::new(Cell::new(0));
    assert_eq!(resource("r", "x").name(), "r");
    assert_eq!(echo_tool("t", calls.clone()).name(), "t");
    assert_eq!(prompt("p", calls).name(), "p");
}

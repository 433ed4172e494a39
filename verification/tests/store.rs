use pie::dependency::{Dependency, ResourceDependency, TaskDependency};
use pie::resource::ResourceCheckerObj;
use pie::store::{ResourceNode, Store, TaskNode};
use pie::task::OutputCheckerObj;
use pie::value::{KeyObj, ValueObj};

fn text(v: Option<&ValueObj>) -> Option<String> {
    match v {
        Some(ValueObj::Str(s)) => Some(s.clone()),
        Some(_) => panic!("not a string value"),
        None => None,
    }
}

fn same(dependency: Option<&Dependency>, expected: &Dependency) -> bool {
    match dependency {
        Some(d) => d.eq(expected),
        None => false,
    }
}

fn task_nodes(reads: &[(TaskNode, ResourceDependency)]) -> Vec<TaskNode> {
    reads.iter().map(|(n, _)| *n).collect()
}

fn require_nodes(requires: &[(TaskNode, TaskDependency)]) -> Vec<TaskNode> {
    requires.iter().map(|(n, _)| *n).collect()
}

fn create_task(store: &mut Store<String>, task: &str) -> TaskNode {
    store.get_or_create_task_node(&task.to_string(), &KeyObj::from_str(task))
}

#[test]
fn test_resource_mapping() {
    let mut store: Store<String> = Store::new();

    let path_a = KeyObj::from_str("hello.txt");
    let node_a = store.get_or_create_resource_node(&path_a);
    assert_eq!(node_a, store.get_or_create_resource_node(&path_a)); // Same node
    assert!(path_a.equals(store.get_resource(&node_a))); // Same resource path

    let path_b = KeyObj::from_str("world.txt");
    let node_b = store.get_or_create_resource_node(&path_b);
    assert_eq!(node_b, store.get_or_create_resource_node(&path_b));
    assert!(path_b.equals(store.get_resource(&node_b)));

    assert_ne!(node_a, node_b); // Different nodes
}

#[test]
fn test_task_mapping() {
    let mut store: Store<String> = Store::new();

    let task_a = "Hello";
    let node_a = create_task(&mut store, task_a);
    assert_eq!(node_a, create_task(&mut store, task_a)); // Same node
    assert_eq!(task_a, store.get_task(&node_a).as_str()); // Same task

    let task_b = "World";
    let node_b = create_task(&mut store, task_b);
    assert_eq!(node_b, create_task(&mut store, task_b));
    assert_eq!(task_b, store.get_task(&node_b).as_str());

    assert_ne!(node_a, node_b); // Different nodes
}

#[test]
fn test_task_outputs() {
    let mut store: Store<String> = Store::new();
    let output_a = "Hello";
    let node_a = create_task(&mut store, output_a);

    let output_b = "World";
    let node_b = create_task(&mut store, output_b);

    // Tasks have no output by default.
    assert!(store.get_task_output(&node_a).is_none());
    assert!(store.get_task_output(&node_b).is_none());

    // Set output for task A: A has that output, B is unchanged.
    store.set_task_output(&node_a, ValueObj::from_str(output_a));
    assert_eq!(text(store.get_task_output(&node_a)), Some(output_a.to_string()));
    assert!(store.get_task_output(&node_b).is_none());

    // Set output for task B: B has that output, A is unchanged.
    store.set_task_output(&node_b, ValueObj::from_str(output_b));
    assert_eq!(text(store.get_task_output(&node_a)), Some(output_a.to_string()));
    assert_eq!(text(store.get_task_output(&node_b)), Some(output_b.to_string()));
}

#[test]
fn test_dependencies() {
    let mut store: Store<String> = Store::new();
    let output_a = "Hello";
    let task_a = output_a;
    let node_a = create_task(&mut store, task_a);
    let output_b = "World";
    let task_b = output_b;
    let node_b = create_task(&mut store, task_b);
    let path_c = KeyObj::from_str("hello.txt");
    let node_c: ResourceNode = store.get_or_create_resource_node(&path_c);

    assert!(!store.contains_transitive_task_dependency(&node_a, &node_a));
    assert!(!store.contains_transitive_task_dependency(&node_b, &node_b));
    assert!(!store.contains_transitive_task_dependency(&node_a, &node_b));
    assert!(!store.contains_transitive_task_dependency(&node_b, &node_a));
    assert!(store.get_tasks_reading_from_resource(&node_c).is_empty());
    assert_eq!(store.get_task_writing_to_resource(&node_c), None);
    assert!(store.get_read_and_write_dependencies_to_resource(&node_c).is_empty());
    assert!(store.get_read_dependencies_to_resource(&node_c).is_empty());
    assert!(store.get_dependencies_from_task(&node_a).is_empty());
    assert!(store.get_dependencies_from_task(&node_b).is_empty());
    assert!(store.get_require_dependencies_to_task(&node_a).is_empty());
    assert!(store.get_require_dependencies_to_task(&node_b).is_empty());
    assert!(store.get_resources_written_by(&node_a).is_empty());
    assert!(store.get_resources_written_by(&node_b).is_empty());

    // Add resource read dependency from task A to resource C.
    let read_a2c = ResourceDependency::new(path_c.copy(), ResourceCheckerObj::Modified, ValueObj::Opt(None)).into_read();
    let result = store.add_dependency(&node_a, node_c.0, read_a2c.copy());
    assert_eq!(result, Ok(()));
    assert!(!store.contains_transitive_task_dependency(&node_a, &node_b));
    assert!(!store.contains_transitive_task_dependency(&node_b, &node_a));
    let reads_from_c = store.get_tasks_reading_from_resource(&node_c);
    assert_eq!(reads_from_c.get(0), Some(&node_a));
    assert_eq!(reads_from_c.get(1), None);
    assert_eq!(store.get_task_writing_to_resource(&node_c), None);
    let reads_from_c = task_nodes(&store.get_read_dependencies_to_resource(&node_c));
    assert_eq!(reads_from_c.get(0), Some(&node_a));
    assert_eq!(reads_from_c.get(1), None);
    let reads_or_writes_from_c = task_nodes(&store.get_read_and_write_dependencies_to_resource(&node_c));
    assert_eq!(reads_or_writes_from_c.get(0), Some(&node_a));
    assert_eq!(reads_or_writes_from_c.get(1), None);
    let deps_of_a = store.get_dependencies_from_task(&node_a);
    assert!(same(deps_of_a.get(0), &read_a2c));
    assert!(deps_of_a.get(1).is_none());
    assert!(store.get_dependencies_from_task(&node_b).is_empty());
    assert!(store.get_require_dependencies_to_task(&node_a).is_empty());
    assert!(store.get_require_dependencies_to_task(&node_b).is_empty());
    assert!(store.get_resources_written_by(&node_a).is_empty());
    assert!(store.get_resources_written_by(&node_b).is_empty());

    // Reserve task dependency from task B to task A.
    let result = store.add_dependency(&node_b, node_a.0, Dependency::ReservedRequire);
    assert_eq!(result, Ok(()));
    assert!(!store.contains_transitive_task_dependency(&node_a, &node_b));
    assert!(store.contains_transitive_task_dependency(&node_b, &node_a));
    let reads_from_c = store.get_tasks_reading_from_resource(&node_c);
    assert_eq!(reads_from_c.get(0), Some(&node_a));
    assert_eq!(reads_from_c.get(1), None);
    assert_eq!(store.get_task_writing_to_resource(&node_c), None);
    let reads_from_c = task_nodes(&store.get_read_dependencies_to_resource(&node_c));
    assert_eq!(reads_from_c.get(0), Some(&node_a));
    assert_eq!(reads_from_c.get(1), None);
    let reads_or_writes_from_c = task_nodes(&store.get_read_and_write_dependencies_to_resource(&node_c));
    assert_eq!(reads_or_writes_from_c.get(0), Some(&node_a));
    assert_eq!(reads_or_writes_from_c.get(1), None);
    let deps_of_a = store.get_dependencies_from_task(&node_a);
    assert!(same(deps_of_a.get(0), &read_a2c));
    assert!(deps_of_a.get(1).is_none());
    let deps_of_b = store.get_dependencies_from_task(&node_b);
    assert!(same(deps_of_b.get(0), &Dependency::ReservedRequire));
    assert!(deps_of_b.get(1).is_none());
    // A reserved require dependency is no require dependency.
    assert!(store.get_require_dependencies_to_task(&node_a).is_empty());
    assert!(store.get_require_dependencies_to_task(&node_b).is_empty());
    assert!(store.get_resources_written_by(&node_a).is_empty());
    assert!(store.get_resources_written_by(&node_b).is_empty());

    // Update task dependency from task B to task A.
    let require_b2a =
        TaskDependency::from_typed(
            KeyObj::from_str(task_a),
            OutputCheckerObj::Equals,
            OutputCheckerObj::Equals.stamp_obj(&ValueObj::from_str(output_a)),
        )
            .into_require();
    assert!(store.set_dependency(&node_b, node_a.0, require_b2a.copy()));
    assert!(!store.contains_transitive_task_dependency(&node_a, &node_b));
    assert!(store.contains_transitive_task_dependency(&node_b, &node_a));
    let reads_from_c = store.get_tasks_reading_from_resource(&node_c);
    assert_eq!(reads_from_c.get(0), Some(&node_a));
    assert_eq!(reads_from_c.get(1), None);
    assert_eq!(store.get_task_writing_to_resource(&node_c), None);
    let reads_from_c = task_nodes(&store.get_read_dependencies_to_resource(&node_c));
    assert_eq!(reads_from_c.get(0), Some(&node_a));
    assert_eq!(reads_from_c.get(1), None);
    let reads_or_writes_from_c = task_nodes(&store.get_read_and_write_dependencies_to_resource(&node_c));
    assert_eq!(reads_or_writes_from_c.get(0), Some(&node_a));
    assert_eq!(reads_or_writes_from_c.get(1), None);
    let deps_of_a = store.get_dependencies_from_task(&node_a);
    assert!(same(deps_of_a.get(0), &read_a2c));
    assert!(deps_of_a.get(1).is_none());
    let deps_of_b = store.get_dependencies_from_task(&node_b);
    assert!(same(deps_of_b.get(0), &require_b2a));
    assert!(deps_of_b.get(1).is_none());
    let reqs_to_a = require_nodes(&store.get_require_dependencies_to_task(&node_a));
    assert_eq!(reqs_to_a.get(0), Some(&node_b));
    assert_eq!(reqs_to_a.get(1), None);
    assert!(store.get_require_dependencies_to_task(&node_b).is_empty());
    assert!(store.get_resources_written_by(&node_a).is_empty());
    assert!(store.get_resources_written_by(&node_b).is_empty());

    // Add resource write dependency from task B to resource C.
    let write_b2c = ResourceDependency::new(path_c.copy(), ResourceCheckerObj::Exists, ValueObj::Bool(true)).into_write();
    let result = store.add_dependency(&node_b, node_c.0, write_b2c.copy());
    assert_eq!(result, Ok(()));
    assert!(!store.contains_transitive_task_dependency(&node_a, &node_b));
    assert!(store.contains_transitive_task_dependency(&node_b, &node_a));
    let reads_from_c = store.get_tasks_reading_from_resource(&node_c);
    assert_eq!(reads_from_c.get(0), Some(&node_a));
    assert_eq!(reads_from_c.get(1), None);
    assert_eq!(store.get_task_writing_to_resource(&node_c), Some(node_b));
    let reads_from_c = task_nodes(&store.get_read_dependencies_to_resource(&node_c));
    assert_eq!(reads_from_c.get(0), Some(&node_a));
    assert_eq!(reads_from_c.get(1), None);
    let reads_or_writes_from_c = task_nodes(&store.get_read_and_write_dependencies_to_resource(&node_c));
    assert_eq!(reads_or_writes_from_c.get(0), Some(&node_a));
    assert_eq!(reads_or_writes_from_c.get(1), Some(&node_b));
    assert_eq!(reads_or_writes_from_c.get(2), None);
    let deps_of_a = store.get_dependencies_from_task(&node_a);
    assert!(same(deps_of_a.get(0), &read_a2c));
    assert!(deps_of_a.get(1).is_none());
    let deps_of_b = store.get_dependencies_from_task(&node_b);
    assert!(same(deps_of_b.get(0), &require_b2a));
    assert!(same(deps_of_b.get(1), &write_b2c));
    assert!(deps_of_b.get(2).is_none());
    let reqs_to_a = require_nodes(&store.get_require_dependencies_to_task(&node_a));
    assert_eq!(reqs_to_a.get(0), Some(&node_b));
    assert_eq!(reqs_to_a.get(1), None);
    assert!(store.get_require_dependencies_to_task(&node_b).is_empty());
    assert!(store.get_resources_written_by(&node_a).is_empty());
    let writes_from_b = store.get_resources_written_by(&node_b);
    assert_eq!(writes_from_b.get(0), Some(&node_c));
    assert_eq!(writes_from_b.get(1), None);

    // Reserve task dependency from task A to task B, creating a cycle.
    let result = store.add_dependency(&node_a, node_b.0, Dependency::ReservedRequire);
    assert_eq!(result, Err(())); // Creates a cycle: error
}

#[test]
fn test_reset() {
    let mut store: Store<String> = Store::new();
    let output_a = "Hello";
    let task_a_node = create_task(&mut store, output_a);
    let output_b = "World";
    let task_b_node = create_task(&mut store, output_b);
    let path = KeyObj::from_str("hello.txt");
    let resource_node = store.get_or_create_resource_node(&path);

    // Set outputs for task A and B.
    store.set_task_output(&task_a_node, ValueObj::from_str(output_a));
    assert_eq!(text(store.get_task_output(&task_a_node)), Some(output_a.to_string()));
    store.set_task_output(&task_b_node, ValueObj::from_str(output_b));
    assert_eq!(text(store.get_task_output(&task_b_node)), Some(output_b.to_string()));

    // Add resource read dependency from task A and B.
    let read_dep = ResourceDependency::new(path.copy(), ResourceCheckerObj::Exists, ValueObj::Bool(true)).into_read();
    let result = store.add_dependency(&task_a_node, resource_node.0, read_dep.copy());
    assert_eq!(result, Ok(()));
    let result = store.add_dependency(&task_b_node, resource_node.0, read_dep.copy());
    assert_eq!(result, Ok(()));
    let reads = store.get_tasks_reading_from_resource(&resource_node);
    assert_eq!(reads.get(0), Some(&task_a_node));
    assert_eq!(reads.get(1), Some(&task_b_node));
    assert_eq!(reads.get(2), None);
    assert_eq!(store.get_task_writing_to_resource(&resource_node), None);
    let reads = task_nodes(&store.get_read_dependencies_to_resource(&resource_node));
    assert_eq!(reads.get(0), Some(&task_a_node));
    assert_eq!(reads.get(1), Some(&task_b_node));
    assert_eq!(reads.get(2), None);
    let reads_or_writes = task_nodes(&store.get_read_and_write_dependencies_to_resource(&resource_node));
    assert_eq!(reads_or_writes.get(0), Some(&task_a_node));
    assert_eq!(reads_or_writes.get(1), Some(&task_b_node));
    assert_eq!(reads_or_writes.get(2), None);
    let deps_of_a = store.get_dependencies_from_task(&task_a_node);
    assert!(same(deps_of_a.get(0), &read_dep));
    assert!(deps_of_a.get(1).is_none());
    let deps_of_b = store.get_dependencies_from_task(&task_b_node);
    assert!(same(deps_of_b.get(0), &read_dep));
    assert!(deps_of_b.get(1).is_none());

    // Reset only task A.
    store.reset_task(&task_a_node);
    // Task A is reset.
    assert!(store.get_task_output(&task_a_node).is_none());
    let reads = store.get_tasks_reading_from_resource(&resource_node);
    assert_eq!(reads.get(0), Some(&task_b_node));
    assert_eq!(reads.get(1), None);
    let reads = task_nodes(&store.get_read_dependencies_to_resource(&resource_node));
    assert_eq!(reads.get(0), Some(&task_b_node));
    assert_eq!(reads.get(1), None);
    let reads_or_writes = task_nodes(&store.get_read_and_write_dependencies_to_resource(&resource_node));
    assert_eq!(reads_or_writes.get(0), Some(&task_b_node));
    assert_eq!(reads_or_writes.get(1), None);
    assert!(store.get_dependencies_from_task(&task_a_node).is_empty());
    // Task B is unchanged.
    assert_eq!(text(store.get_task_output(&task_b_node)), Some(output_b.to_string()));
    let deps_of_b = store.get_dependencies_from_task(&task_b_node);
    assert!(same(deps_of_b.get(0), &read_dep));
    assert!(deps_of_b.get(1).is_none());
}

use std::sync::Arc;
use std::sync::RwLock;

use daglib::AsyncDag;
use daglib::DagBackend;
use daglib::IdSelector;
use daglib::Merger;
use daglib::RebaseNodeRewriterCreator;

#[derive(Debug, Clone, PartialEq)]
pub struct TestError;

#[derive(Copy, Clone, Eq, PartialEq, Hash, Debug)]
pub struct Id(usize);

impl daglib::NodeId for Id {}

#[derive(Clone, Debug, PartialEq)]
pub struct Node {
    parents: Vec<Id>,
    // data the node holds, used to create the ID in tests as "hashing" for unique id
    data: usize,
}

impl daglib::Node for Node {
    type Id = Id;

    fn parent_ids(&self) -> Vec<Self::Id> {
        self.parents.clone()
    }
}

/// The backend for the tests
///
/// This is `Clone` because we can test branching only with a clonable backend.
#[derive(Clone, Debug)]
pub struct Backend(Arc<RwLock<Vec<Option<Node>>>>);

impl Backend {
    pub fn new(v: Vec<Option<Node>>) -> Self {
        Backend(Arc::new(RwLock::new(v)))
    }
}

impl DagBackend<Id, Node> for Backend {
    type Error = TestError;

    fn get(&self, id: Id) -> Result<Option<(Id, Node)>, Self::Error> {
        if self.0.read().unwrap().len() < id.0 + 1 {
            Ok(None)
        } else {
            Ok(self.0.read().unwrap()[id.0].clone().map(|node| (id, node)))
        }
    }

    fn put(&mut self, node: Node) -> Result<Id, Self::Error> {
        while self.0.read().unwrap().len() < node.data + 1 {
            self.0.write().unwrap().push(None)
        }

        let idx = node.data;
        self.0.write().unwrap()[idx] = Some(node);
        Ok(Id(idx))
    }
}

fn stream_all(dag: &AsyncDag<Id, Node, Backend>) -> Vec<Result<(Id, Node), daglib::Error<Id, TestError>>> {
    let mut stream = dag.stream();
    let mut v = Vec::new();
    while let Some(item) = stream.next() {
        v.push(item);
    }
    v
}

#[test]
fn test_backend_get() {
    let b = Backend::new(vec![Some(Node {
        parents: vec![],
        data: 0,
    })]);

    let node = b.get(Id(0));
    assert!(node.is_ok());
    let node = node.unwrap();

    assert!(node.is_some());
    let node = node.unwrap();

    assert_eq!(node.0, Id(0));
    assert!(node.1.parents.is_empty());
}

#[test]
fn test_backend_put() {
    let mut b = Backend::new(vec![Some(Node {
        parents: vec![],
        data: 0,
    })]);

    let _ = b.put({
        Node {
            parents: vec![],
            data: 1,
        }
    });

    {
        let node = b.get(Id(0));
        assert!(node.is_ok());
        let node = node.unwrap();

        assert!(node.is_some());
        let node = node.unwrap();

        assert_eq!(node.0, Id(0));
        assert!(node.1.parents.is_empty());
    }
    {
        let node = b.get(Id(1));
        assert!(node.is_ok());
        let node = node.unwrap();

        assert!(node.is_some());
        let node = node.unwrap();

        assert_eq!(node.0, Id(1));
        assert!(node.1.parents.is_empty());
    }
    {
        let node = b.get(Id(2));
        assert!(node.is_ok());
        let node = node.unwrap();

        assert!(node.is_none());
    }
}

#[test]
fn test_dag_two_nodes() {
    let head = Node {
        parents: vec![Id(0)],
        data: 1,
    };

    let b = Backend::new(vec![
        {
            Some(Node {
                parents: vec![],
                data: 0,
            })
        },
        { Some(head.clone()) },
    ]);

    {
        let node = b.get(Id(1)).unwrap().unwrap();
        assert_eq!(node.1.data, 1);
        assert!(!node.1.parents.is_empty()); // to check whether the parent is set
    }

    let dag = AsyncDag::new(b, head);
    assert!(dag.is_ok());
    let dag = dag.unwrap();

    {
        let has_id = dag.has_id(&Id(0));
        assert!(has_id.is_ok());
        let has_id = has_id.unwrap();
        assert!(has_id);
    }
    {
        let has_id = dag.has_id(&Id(1));
        assert!(has_id.is_ok());
        let has_id = has_id.unwrap();
        assert!(has_id);
    }
}

#[test]
fn test_dag_two_nodes_stream() {
    let head = Node {
        parents: vec![Id(0)],
        data: 1,
    };

    let b = Backend::new(vec![
        {
            Some(Node {
                parents: vec![],
                data: 0,
            })
        },
        { Some(head.clone()) },
    ]);

    let dag = AsyncDag::new(b, head);
    assert!(dag.is_ok());
    let dag = dag.unwrap();

    let v = stream_all(&dag);

    assert_eq!(v.len(), 2, "Expected two nodes: {:?}", v);
    assert_eq!(v[0].as_ref().unwrap().0, Id(1));
    assert_eq!(v[1].as_ref().unwrap().0, Id(0));
}

#[test]
fn test_adding_head() {
    let head = Node {
        parents: vec![],
        data: 0,
    };
    let b = Backend::new(vec![Some(head.clone())]);

    let dag = AsyncDag::new(b, head);
    assert!(dag.is_ok());
    let mut dag = dag.unwrap();

    let new_head = Node {
        parents: vec![Id(0)],
        data: 1,
    };

    assert_eq!(dag.backend().0.read().unwrap().len(), 1);
    assert_eq!(*dag.head(), Id(0));

    let id = dag.update_head(new_head);
    assert!(id.is_ok());
    let _ = id.unwrap();

    assert_eq!(dag.backend().0.read().unwrap().len(), 2);
    assert_eq!(*dag.head(), Id(1));

    assert_eq!(dag.backend().0.read().unwrap()[0].as_ref().unwrap().data, 0);
    assert!(dag.backend().0.read().unwrap()[0]
        .as_ref()
        .unwrap()
        .parents
        .is_empty());

    assert_eq!(dag.backend().0.read().unwrap()[1].as_ref().unwrap().data, 1);
    assert_eq!(
        dag.backend().0.read().unwrap()[1]
            .as_ref()
            .unwrap()
            .parents
            .len(),
        1
    );
    assert_eq!(
        dag.backend().0.read().unwrap()[1].as_ref().unwrap().parents[0],
        Id(0)
    );
}

#[test]
fn test_branch() {
    let mut dag = {
        let head = Node {
            parents: vec![],
            data: 0,
        };
        let b = Backend::new(vec![Some(head.clone())]);
        let dag = AsyncDag::new(b, head);
        assert!(dag.is_ok());
        dag.unwrap()
    };

    let branched = dag.branch();

    {
        assert_eq!(dag.backend().0.read().unwrap().len(), 1);
        assert_eq!(*dag.head(), Id(0));
        let new_head = Node {
            parents: vec![Id(0)],
            data: 1,
        };

        let id = dag.update_head(new_head);
        assert!(id.is_ok());
        let _ = id.unwrap();

        assert_eq!(dag.backend().0.read().unwrap().len(), 2);
        assert_eq!(*dag.head(), Id(1));
    }

    assert_eq!(branched.backend().0.read().unwrap().len(), 2);
    assert_eq!(*branched.head(), Id(0));
}

#[test]
fn test_merging() {
    let mut dag = {
        let head = Node {
            parents: vec![],
            data: 0,
        };
        let b = Backend::new(vec![Some(head.clone())]);
        let dag = AsyncDag::new(b, head);
        assert!(dag.is_ok());
        dag.unwrap()
    };

    let mut branched = dag.branch();

    {
        assert_eq!(dag.backend().0.read().unwrap().len(), 1);
        assert_eq!(*dag.head(), Id(0));
        let new_head = Node {
            parents: vec![Id(0)],
            data: 1,
        };

        let id = dag.update_head(new_head);
        assert!(id.is_ok());
        let _ = id.unwrap();

        assert_eq!(dag.backend().0.read().unwrap().len(), 2);
        assert_eq!(*dag.head(), Id(1));
    }

    {
        assert_eq!(branched.backend().0.read().unwrap().len(), 2);
        assert_eq!(*branched.head(), Id(0));
        let new_head = Node {
            parents: vec![Id(0)],
            data: 2,
        };

        let id = branched.update_head(new_head);
        assert!(id.is_ok());
        let _ = id.unwrap();

        assert_eq!(branched.backend().0.read().unwrap().len(), 3);
        assert_eq!(*branched.head(), Id(2));
    }

    struct M;
    impl Merger<Id, Node, TestError> for M {
        fn create_merge_node(&self, left_id: &Id, right_id: &Id) -> Result<Node, TestError> {
            Ok(Node {
                parents: vec![*left_id, *right_id],
                data: 3,
            })
        }
    }

    let merge = dag.merge(&branched, M);
    assert!(merge.is_ok());
    let _ = merge.unwrap();

    assert_eq!(dag.backend().0.read().unwrap().len(), 4);
    assert_eq!(*dag.head(), Id(3));
}

#[test]
fn test_merging_merge_fn() {
    let mut dag = {
        let head = Node {
            parents: vec![],
            data: 0,
        };
        let b = Backend::new(vec![Some(head.clone())]);
        let dag = AsyncDag::new(b, head);
        assert!(dag.is_ok());
        dag.unwrap()
    };

    let mut branched = dag.branch();

    {
        assert_eq!(dag.backend().0.read().unwrap().len(), 1);
        assert_eq!(*dag.head(), Id(0));
        let new_head = Node {
            parents: vec![Id(0)],
            data: 1,
        };

        let id = dag.update_head(new_head);
        assert!(id.is_ok());
        let _ = id.unwrap();

        assert_eq!(dag.backend().0.read().unwrap().len(), 2);
        assert_eq!(*dag.head(), Id(1));
    }

    {
        assert_eq!(branched.backend().0.read().unwrap().len(), 2);
        assert_eq!(*branched.head(), Id(0));
        let new_head = Node {
            parents: vec![Id(0)],
            data: 2,
        };

        let id = branched.update_head(new_head);
        assert!(id.is_ok());
        let _ = id.unwrap();

        assert_eq!(branched.backend().0.read().unwrap().len(), 3);
        assert_eq!(*branched.head(), Id(2));
    }

    let merge = dag.merge(&branched, |left_id: &Id, right_id: &Id| -> Result<Node, TestError> {
        Ok(Node {
            parents: vec![*left_id, *right_id],
            data: 3,
        })
    });
    assert!(merge.is_ok());
    let _ = merge.unwrap();

    assert_eq!(dag.backend().0.read().unwrap().len(), 4);
    assert_eq!(*dag.head(), Id(3));
}

#[test]
fn test_rewrite_nodes() {
    let mut dag = {
        let head = Node {
            parents: vec![Id(3)],
            data: 4,
        };
        let b = Backend::new(
            vec![
                Node {
                    parents: vec![],
                    data: 0,
                },
                Node {
                    parents: vec![Id(0)],
                    data: 1,
                },
                Node {
                    parents: vec![Id(1)],
                    data: 2,
                },
                Node {
                    parents: vec![Id(2)],
                    data: 3,
                },
                { head.clone() },
            ]
            .into_iter()
            .map(Some)
            .collect(),
        );

        let dag = AsyncDag::new(b, head);
        assert!(dag.is_ok());
        dag.unwrap()
    };
    assert_eq!(dag.backend().0.read().unwrap().len(), 5);
    assert_eq!(*dag.head(), Id(4));

    let mut rebase = Vec::new();
    {
        let mut stream = dag.stream();
        while let Some(node) = stream.next() {
            match node {
                Ok((id, node)) => {
                    if !(id.0 > 1) {
                        // the one we rebase on
                        break;
                    }
                    rebase.push(Node {
                        parents: vec![if node.parents[0] == Id(1) {
                            Id(1) // base we rebase on
                        } else {
                            Id(node.parents[0].0 + 10)
                        }],
                        data: node.data + 10,
                    });
                }
                Err(_) => unreachable!(), // in tests this should be unreachable
            }
        }
    }

    for node in rebase.into_iter().rev() {
        // reverse order here, because we apply from oldest in chain to newest
        dag.update_head_unchecked(node).unwrap();
    }

    // 15 because how the backend behaves
    assert_eq!(dag.backend().0.read().unwrap().len(), 15);

    // actual nodes:
    //  * 5 original: 0 <- 1 <- 2 <- 3 <- 4
    //  * 3 rewritten: 0 <- 1 <- 12 <- 13 <- 14
    assert_eq!(dag.backend().0.read().unwrap().iter().filter(|n| n.is_some()).count(), 5 + 3);
    assert_eq!(*dag.head(), Id(14));

    {
        let backend: &Vec<_> = &dag.backend().0.read().unwrap();

        // test NONE <- 0
        assert_eq!(backend.iter().filter_map(|n| n.as_ref()).find(|n| n.data == 0).unwrap().parents.len(), 0);

        // test 0 <- 1
        assert_eq!(backend.iter().filter_map(|n| n.as_ref()).find(|n| n.data == 1).unwrap().parents.len(), 1);
        assert_eq!(backend.iter().filter_map(|n| n.as_ref()).find(|n| n.data == 1).unwrap().parents[0], Id(0));

        // test 1 <- 12
        assert_eq!(backend.iter().filter_map(|n| n.as_ref()).find(|n| n.data == 12).unwrap().parents.len(), 1);
        assert_eq!(backend.iter().filter_map(|n| n.as_ref()).find(|n| n.data == 12).unwrap().parents[0], Id(1));

        // test 12 <- 13
        assert_eq!(backend.iter().filter_map(|n| n.as_ref()).find(|n| n.data == 13).unwrap().parents.len(), 1);
        assert_eq!(backend.iter().filter_map(|n| n.as_ref()).find(|n| n.data == 13).unwrap().parents[0], Id(12));

        // test 13 <- 14
        assert_eq!(backend.iter().filter_map(|n| n.as_ref()).find(|n| n.data == 14).unwrap().parents.len(), 1);
        assert_eq!(backend.iter().filter_map(|n| n.as_ref()).find(|n| n.data == 14).unwrap().parents[0], Id(13));
    }
}

/// A backend whose every operation fails.
#[derive(Clone, Debug)]
pub struct FailingBackend;

impl DagBackend<Id, Node> for FailingBackend {
    type Error = TestError;

    fn get(&self, _id: Id) -> Result<Option<(Id, Node)>, Self::Error> {
        Err(TestError)
    }

    fn put(&mut self, _node: Node) -> Result<Id, Self::Error> {
        Err(TestError)
    }
}

/// A backend over a `Backend` whose operations can be made to fail.
#[derive(Clone, Debug)]
pub struct FlakyBackend {
    inner: Backend,
    fail_get: bool,
    fail_put: bool,
}

impl DagBackend<Id, Node> for FlakyBackend {
    type Error = TestError;

    fn get(&self, id: Id) -> Result<Option<(Id, Node)>, Self::Error> {
        if self.fail_get {
            Err(TestError)
        } else {
            self.inner.get(id)
        }
    }

    fn put(&mut self, node: Node) -> Result<Id, Self::Error> {
        if self.fail_put {
            Err(TestError)
        } else {
            self.inner.put(node)
        }
    }
}

/// Rewrites a node onto the identifier put before it, adding ten to its data.
pub struct Shift;

impl daglib::NodeRewriter<Id, Node, TestError> for Shift {
    fn rewrite_node(&mut self, previous_id: Id, _id: Id, node: Node) -> Result<Node, TestError> {
        Ok(Node {
            parents: vec![previous_id],
            data: node.data + 10,
        })
    }
}

/// Fails on every node.
pub struct Refuse;

impl daglib::NodeRewriter<Id, Node, TestError> for Refuse {
    fn rewrite_node(&mut self, _previous_id: Id, _id: Id, _node: Node) -> Result<Node, TestError> {
        Err(TestError)
    }
}

fn node(parents: Vec<usize>, data: usize) -> Node {
    Node {
        parents: parents.into_iter().map(Id).collect(),
        data,
    }
}

/// 0 <- 1 <- 2 <- 3 <- 4, with HEAD at 4.
fn chain_dag() -> AsyncDag<Id, Node, Backend> {
    let nodes = vec![
        node(vec![], 0),
        node(vec![0], 1),
        node(vec![1], 2),
        node(vec![2], 3),
        node(vec![3], 4),
    ];
    let head = nodes[4].clone();
    let b = Backend::new(nodes.into_iter().map(Some).collect());
    AsyncDag::new(b, head).unwrap()
}

/// 0 <- 1 <- 2 <- 3 <- 4, with HEAD at 4, over a backend that can be made to fail.
fn flaky_chain_dag() -> AsyncDag<Id, Node, FlakyBackend> {
    let b = FlakyBackend {
        inner: chain_dag().backend().clone(),
        fail_get: false,
        fail_put: false,
    };
    AsyncDag::load(b, Id(4)).unwrap()
}

fn ids(items: &[Result<(Id, Node), daglib::Error<Id, TestError>>]) -> Vec<usize> {
    items.iter().map(|item| item.as_ref().unwrap().0 .0).collect()
}

#[test]
fn stream_walks_depth_first_with_repeats() {
    // 0 <- 1, 0 <- 2, and 3 has the parents 1 and 2
    let nodes = vec![node(vec![], 0), node(vec![0], 1), node(vec![0], 2), node(vec![1, 2], 3)];
    let head = nodes[3].clone();
    let dag = AsyncDag::new(Backend::new(nodes.into_iter().map(Some).collect()), head).unwrap();
    // the last parent is visited first, and a node reached twice is visited twice
    assert_eq!(ids(&stream_all(&dag)), vec![3, 2, 0, 1, 0]);
}

#[test]
fn stream_skips_missing_parents() {
    let head = node(vec![7], 0);
    let dag = AsyncDag::new(Backend::new(vec![]), head).unwrap();
    assert_eq!(ids(&stream_all(&dag)), vec![0]);
    assert_eq!(dag.has_id(&Id(7)).unwrap(), false);
}

#[test]
fn stream_yields_backend_failure() {
    let mut dag = flaky_chain_dag();
    dag.backend_mut().fail_get = true;
    let mut stream = dag.stream();
    assert!(matches!(stream.next(), Some(Err(daglib::Error::Backend(TestError)))));
    // the failed node's parents are not visited
    assert!(stream.next().is_none());
}

#[test]
fn new_reports_backend_failure() {
    match AsyncDag::new(FailingBackend, node(vec![], 0)) {
        Err(daglib::Error::Backend(TestError)) => {}
        _ => panic!("expected a backend error"),
    }
}

#[test]
fn has_id_is_false_for_unreachable_nodes() {
    // node 5 is stored but not reachable from HEAD 4
    let dag = chain_dag();
    let mut b = dag.backend().clone();
    b.put(node(vec![0], 5)).unwrap();
    assert_eq!(dag.has_id(&Id(5)).unwrap(), false);
    assert_eq!(dag.has_id(&Id(0)).unwrap(), true);
    assert_eq!(dag.has_id(&Id(4)).unwrap(), true);
    assert_eq!(dag.has_id(&Id(9)).unwrap(), false);
}

#[test]
fn load_finds_stored_head() {
    let b = Backend::new(vec![Some(node(vec![], 0)), Some(node(vec![0], 1))]);
    let dag = AsyncDag::load(b, Id(1)).unwrap();
    assert_eq!(*dag.head(), Id(1));
    assert_eq!(dag.has_id(&Id(0)).unwrap(), true);
}

#[test]
fn load_fails_for_missing_head() {
    let b = Backend::new(vec![Some(node(vec![], 0))]);
    match AsyncDag::load(b, Id(3)) {
        Err(daglib::Error::NodeNotFound(id)) => assert_eq!(id, Id(3)),
        _ => panic!("expected NodeNotFound"),
    }
}

#[test]
fn load_reports_backend_failure() {
    match AsyncDag::<Id, Node, FailingBackend>::load(FailingBackend, Id(0)) {
        Err(daglib::Error::Backend(TestError)) => {}
        _ => panic!("expected a backend error"),
    }
}

#[test]
fn update_head_refuses_node_without_head_parent() {
    let mut dag = chain_dag();
    let r = dag.update_head(node(vec![2], 5));
    assert!(matches!(r, Err(daglib::Error::HeadNotAParent)));
    assert_eq!(*dag.head(), Id(4));
    assert_eq!(dag.backend().0.read().unwrap().len(), 5);
}

#[test]
fn update_head_keeps_old_nodes_reachable() {
    let mut dag = chain_dag();
    let id = dag.update_head(node(vec![4], 5)).unwrap();
    assert_eq!(id, Id(5));
    assert_eq!(*dag.head(), Id(5));
    for i in 0..6 {
        assert_eq!(dag.has_id(&Id(i)).unwrap(), true);
    }
}

#[test]
fn update_head_unchecked_can_lose_nodes() {
    let mut dag = chain_dag();
    let id = dag.update_head_unchecked(node(vec![2], 5)).unwrap();
    assert_eq!(id, Id(5));
    assert_eq!(dag.has_id(&Id(2)).unwrap(), true);
    assert_eq!(dag.has_id(&Id(3)).unwrap(), false);
    assert_eq!(dag.has_id(&Id(4)).unwrap(), false);
}

#[test]
fn update_head_reports_backend_failure() {
    let mut dag = flaky_chain_dag();
    dag.backend_mut().fail_put = true;
    let r = dag.update_head(node(vec![4], 5));
    assert!(matches!(r, Err(daglib::Error::Backend(TestError))));
    assert_eq!(*dag.head(), Id(4));
}

#[test]
fn has_id_reports_backend_failure() {
    let mut dag = flaky_chain_dag();
    assert_eq!(dag.has_id(&Id(0)).unwrap(), true);
    dag.backend_mut().fail_get = true;
    assert!(matches!(dag.has_id(&Id(0)), Err(daglib::Error::Backend(TestError))));
}

#[test]
fn rebase_reports_backend_failure() {
    let mut dag = flaky_chain_dag();
    dag.backend_mut().fail_get = true;
    let r = dag.rebase().onto(Id(1)).doing(Shift).run();
    assert!(matches!(r, Err(daglib::Error::Backend(TestError))));
    assert_eq!(*dag.head(), Id(4));
}

#[test]
fn branch_shares_head() {
    let dag = chain_dag();
    let branched = dag.branch();
    assert_eq!(*branched.head(), *dag.head());
    assert_eq!(branched.has_id(&Id(0)).unwrap(), true);
}

#[test]
fn merge_reports_merger_failure() {
    let mut dag = chain_dag();
    let other = dag.branch();
    let r = dag.merge(&other, |_l: &Id, _r: &Id| -> Result<Node, TestError> { Err(TestError) });
    assert!(matches!(r, Err(daglib::Error::Merge(TestError))));
    assert_eq!(*dag.head(), Id(4));
}

// The test backend shares its storage between clones, so a node put through the branch is seen
// from `dag`; the library's contracts describe backends as values and do not promise this.
#[test]
fn merge_gives_both_heads_as_parents() {
    let mut dag = chain_dag();
    let mut other = dag.branch();
    other.update_head(node(vec![4], 6)).unwrap();
    let id = dag
        .merge(&other, |l: &Id, r: &Id| -> Result<Node, TestError> {
            Ok(Node {
                parents: vec![*l, *r],
                data: 7,
            })
        })
        .unwrap();
    assert_eq!(id, Id(7));
    assert_eq!(*dag.head(), Id(7));
    let stored = dag.backend().get(Id(7)).unwrap().unwrap();
    assert_eq!(stored.1.parents, vec![Id(4), Id(6)]);
    assert_eq!(dag.has_id(&Id(6)).unwrap(), true);
}

#[test]
fn rebase_rewrites_nodes_above_base() {
    let mut dag = chain_dag();
    let id = dag.rebase().onto(Id(1)).doing(Shift).run().unwrap();
    // 2, 3 and 4 are rewritten, oldest first, onto 1
    assert_eq!(id, Id(14));
    assert_eq!(*dag.head(), Id(14));
    let b = dag.backend();
    assert_eq!(b.get(Id(12)).unwrap().unwrap().1, node(vec![1], 12));
    assert_eq!(b.get(Id(13)).unwrap().unwrap().1, node(vec![12], 13));
    assert_eq!(b.get(Id(14)).unwrap().unwrap().1, node(vec![13], 14));
    assert_eq!(dag.has_id(&Id(0)).unwrap(), true);
    assert_eq!(dag.has_id(&Id(4)).unwrap(), false);
}

#[test]
fn rebase_onto_head_changes_nothing() {
    let mut dag = chain_dag();
    let id = dag.rebase().onto(Id(4)).doing(Shift).run().unwrap();
    assert_eq!(id, Id(4));
    assert_eq!(*dag.head(), Id(4));
    assert_eq!(dag.backend().0.read().unwrap().len(), 5);
}

#[test]
fn rebase_onto_missing_base_rewrites_whole_walk() {
    let mut dag = {
        let nodes = vec![node(vec![], 0), node(vec![0], 1)];
        let head = nodes[1].clone();
        AsyncDag::new(Backend::new(nodes.into_iter().map(Some).collect()), head).unwrap()
    };
    let id = dag.rebase().onto(Id(9)).doing(Shift).run().unwrap();
    // 0 is rewritten onto 9 as 10, then 1 onto 10 as 11
    assert_eq!(id, Id(11));
    assert_eq!(dag.backend().get(Id(10)).unwrap().unwrap().1, node(vec![9], 10));
    assert_eq!(dag.backend().get(Id(11)).unwrap().unwrap().1, node(vec![10], 11));
}

#[test]
fn rebase_reports_rewrite_failure() {
    let mut dag = chain_dag();
    let r = dag.rebase().onto(Id(1)).doing(Refuse).run();
    assert!(matches!(r, Err(daglib::Error::Rewrite(TestError))));
    assert_eq!(*dag.head(), Id(4));
}

#[test]
fn onto_selects_its_base() {
    let mut dag = chain_dag();
    let onto = dag.rebase().onto(Id(2));
    assert_eq!(onto.1, Id(2));
    assert!(onto.2.select(&Id(2)));
    assert!(!onto.2.select(&Id(3)));
}

#[test]
fn contains_and_clone_ids() {
    let v = vec![Id(1), Id(2)];
    assert!(daglib::contains_id(&v, &Id(2)));
    assert!(!daglib::contains_id(&v, &Id(3)));
    assert_eq!(daglib::clone_id(&Id(5)), Id(5));
    assert_eq!(daglib::clone_value(&v), v);
}

type Item = Result<(Id, Node), daglib::Error<Id, TestError>>;

fn visit(id: usize, parents: Vec<usize>) -> Item {
    Ok((Id(id), node(parents, id)))
}

#[test]
fn has_id_in_items_takes_first_failure_over_a_match() {
    let items: Vec<Item> = vec![
        visit(1, vec![0]),
        Err(daglib::Error::NodeNotFound(Id(8))),
        visit(2, vec![0]),
        Err(daglib::Error::Backend(TestError)),
    ];
    match daglib::has_id_in_items(items, &Id(1)) {
        Err(daglib::Error::NodeNotFound(id)) => assert_eq!(id, Id(8)),
        _ => panic!("expected the first failure"),
    }
}

#[test]
fn has_id_in_items_answers_membership() {
    let items = || -> Vec<Item> { vec![visit(3, vec![1]), visit(1, vec![0]), visit(0, vec![])] };
    assert_eq!(daglib::has_id_in_items(items(), &Id(1)).unwrap(), true);
    assert_eq!(daglib::has_id_in_items(items(), &Id(2)).unwrap(), false);
    assert_eq!(daglib::has_id_in_items(Vec::<Item>::new(), &Id(0)).unwrap(), false);
}

#[test]
fn replay_rewrites_oldest_first() {
    let mut dag = chain_dag();
    // newest first, as a walk yields them
    let items: Vec<Item> = vec![visit(4, vec![3]), visit(3, vec![2]), visit(2, vec![1])];
    let id = daglib::replay(&mut dag, Shift, Id(1), items).unwrap();
    assert_eq!(id, Id(14));
    assert_eq!(*dag.head(), Id(14));
    assert_eq!(dag.backend().get(Id(12)).unwrap().unwrap().1, node(vec![1], 12));
    assert_eq!(dag.backend().get(Id(13)).unwrap().unwrap().1, node(vec![12], 13));
    assert_eq!(dag.backend().get(Id(14)).unwrap().unwrap().1, node(vec![13], 14));
}

#[test]
fn replay_of_nothing_returns_base() {
    let mut dag = chain_dag();
    let id = daglib::replay(&mut dag, Shift, Id(7), Vec::<Item>::new()).unwrap();
    assert_eq!(id, Id(7));
    assert_eq!(*dag.head(), Id(4));
    assert_eq!(dag.backend().0.read().unwrap().len(), 5);
}

#[test]
fn replay_stops_at_a_failed_item() {
    let mut dag = chain_dag();
    let items: Vec<Item> = vec![
        visit(4, vec![3]),
        Err(daglib::Error::Backend(TestError)),
        visit(2, vec![1]),
    ];
    let r = daglib::replay(&mut dag, Shift, Id(1), items);
    assert!(matches!(r, Err(daglib::Error::Backend(TestError))));
    // 2 was rewritten and put before the failure; 4 was not rewritten after it
    assert_eq!(*dag.head(), Id(12));
    assert!(dag.backend().get(Id(12)).unwrap().is_some());
    assert!(dag.backend().get(Id(14)).unwrap().is_none());
}

#[test]
fn replay_returns_first_failure_in_walk_order() {
    let mut dag = chain_dag();
    let items: Vec<Item> = vec![
        Err(daglib::Error::NodeNotFound(Id(8))),
        visit(3, vec![2]),
        Err(daglib::Error::Backend(TestError)),
    ];
    match daglib::replay(&mut dag, Shift, Id(1), items) {
        Err(daglib::Error::NodeNotFound(id)) => assert_eq!(id, Id(8)),
        _ => panic!("expected the first failure"),
    }
    // the failure was met first in the replay, so nothing was rewritten
    assert_eq!(*dag.head(), Id(4));
    assert_eq!(dag.backend().0.read().unwrap().len(), 5);
}

#[test]
fn replay_stops_at_a_failed_rewrite() {
    let mut dag = chain_dag();
    let items: Vec<Item> = vec![visit(4, vec![3]), visit(3, vec![2])];
    let r = daglib::replay(&mut dag, Refuse, Id(1), items);
    assert!(matches!(r, Err(daglib::Error::Rewrite(TestError))));
    assert_eq!(*dag.head(), Id(4));
    assert_eq!(dag.backend().0.read().unwrap().len(), 5);
}

#[test]
fn replay_stops_at_a_failed_put() {
    let mut dag = flaky_chain_dag();
    dag.backend_mut().fail_put = true;
    let items: Vec<Item> = vec![visit(4, vec![3]), visit(3, vec![2])];
    let r = daglib::replay(&mut dag, Shift, Id(1), items);
    assert!(matches!(r, Err(daglib::Error::Backend(TestError))));
    assert_eq!(*dag.head(), Id(4));
}

struct SelectTwo;

impl daglib::IdSelector<Id> for SelectTwo {
    fn select(&self, id: &Id) -> bool {
        *id == Id(2)
    }
}

#[test]
fn collect_until_without_stop_yields_whole_walk() {
    let dag = chain_dag();
    let mut stream = dag.stream();
    let none: Option<daglib::IdEqualSelector<Id>> = None;
    let all = stream.collect_until(&none);
    assert_eq!(ids(&all), vec![4, 3, 2, 1, 0]);
}

#[test]
fn collect_until_stops_before_selected() {
    let dag = chain_dag();
    let mut stream = dag.stream();
    let before = stream.collect_until(&Some(SelectTwo));
    assert_eq!(ids(&before), vec![4, 3]);
}

/// 0 <- 1 <- 2 <- 3 <- 4 with HEAD at 4, and beside it 5 and 6, each the parent of the other.
fn chain_dag_with_cycle_beside() -> AsyncDag<Id, Node, Backend> {
    let nodes = vec![
        node(vec![], 0),
        node(vec![0], 1),
        node(vec![1], 2),
        node(vec![2], 3),
        node(vec![3], 4),
        node(vec![6], 5),
        node(vec![5], 6),
    ];
    let b = Backend::new(nodes.into_iter().map(Some).collect());
    AsyncDag::load(b, Id(4)).unwrap()
}

#[test]
fn has_id_with_a_cycle_beside_the_dag() {
    let dag = chain_dag_with_cycle_beside();
    assert!(dag.has_id(&Id(0)).unwrap());
    assert!(!dag.has_id(&Id(5)).unwrap());
    assert!(!dag.has_id(&Id(6)).unwrap());
}

#[test]
fn rebase_with_a_cycle_beside_the_dag() {
    let mut dag = chain_dag_with_cycle_beside();
    let id = dag.rebase().onto(Id(1)).doing(Shift).run().unwrap();
    assert_eq!(id, Id(14));
    assert_eq!(*dag.head(), Id(14));
    assert!(dag.has_id(&Id(12)).unwrap());
}

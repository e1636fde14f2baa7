use rnacos::naming::cluster::model::{NamingRouteAddr, NamingRouteRequest};
use rnacos::naming::cluster::node_manage::{
    ClusterNode, InnerNodeManage, NodeManage, NodeManageRequest, NodeManageResponse, NodeStatus,
};
use std::sync::Arc;

fn members(list: &[(u64, &str)]) -> Vec<(u64, Arc<String>)> {
    list.iter().map(|(id, addr)| (*id, Arc::new((*addr).to_owned()))).collect()
}

fn shape(nodes: &[ClusterNode]) -> Vec<(u64, u64, bool, String, NodeStatus)> {
    nodes
        .iter()
        .map(|n| (n.id, n.index, n.is_local, n.addr.as_ref().clone(), n.status))
        .collect()
}

fn texts(list: &[Arc<String>]) -> Vec<String> {
    list.iter().map(|s| s.as_ref().clone()).collect()
}

fn pairs(list: &[(u64, Arc<String>)]) -> Vec<(u64, String)> {
    list.iter().map(|(id, s)| (*id, s.as_ref().clone())).collect()
}

#[test]
fn node_status_is_valid_by_default() {
    assert_eq!(NodeStatus::default(), NodeStatus::Valid);
}

#[test]
fn empty_table_shows_the_local_node_alone() {
    let table = InnerNodeManage::new(7);
    assert_eq!(table.local_id(), 7);
    let nodes = table.get_all_nodes();
    assert_eq!(shape(&nodes), vec![(7, 0, true, "".to_owned(), NodeStatus::Valid)]);
    let this = table.get_this_node();
    assert_eq!((this.id, this.is_local, this.last_active_time), (7, true, 0));
}

#[test]
fn membership_update_places_nodes_by_ascending_id() {
    let mut table = InnerNodeManage::new(2);
    let changes = table.update_nodes_at(members(&[(3, "c"), (1, "a"), (2, "b")]), 50);
    assert_eq!(
        shape(&table.get_all_nodes()),
        vec![
            (1, 0, false, "a".to_owned(), NodeStatus::Valid),
            (2, 1, true, "b".to_owned(), NodeStatus::Valid),
            (3, 2, false, "c".to_owned(), NodeStatus::Valid),
        ]
    );
    assert_eq!(pairs(&changes.started), vec![(3, "c".to_owned()), (1, "a".to_owned())]);
    assert_eq!(changes.stopped, Vec::<u64>::new());
    assert_eq!(table.get_this_node().last_active_time, 50);
}

#[test]
fn membership_update_drops_updates_and_adds() {
    let mut table = InnerNodeManage::new(1);
    table.update_nodes_at(members(&[(1, "a"), (2, "b"), (4, "d")]), 10);
    table.node_add_client_at(2, Arc::new("c1".to_owned()), 20);
    let changes = table.update_nodes_at(members(&[(5, "e"), (2, "b-new"), (1, "a")]), 30);
    assert_eq!(
        shape(&table.get_all_nodes()),
        vec![
            (1, 0, true, "a".to_owned(), NodeStatus::Valid),
            (2, 1, false, "b-new".to_owned(), NodeStatus::Valid),
            (5, 2, false, "e".to_owned(), NodeStatus::Valid),
        ]
    );
    assert_eq!(pairs(&changes.started), vec![(5, "e".to_owned())]);
    assert_eq!(changes.stopped, vec![4]);
    let purged = table.check_node_status_at(20 + 15_000 + 1);
    assert_eq!(texts(&purged), vec!["c1".to_owned()]);
}

#[test]
fn membership_update_takes_the_last_address_of_a_repeated_id() {
    let mut table = InnerNodeManage::new(1);
    let changes = table.update_nodes_at(members(&[(2, "first"), (2, "second")]), 10);
    assert_eq!(
        shape(&table.get_all_nodes()),
        vec![
            (1, 0, true, "".to_owned(), NodeStatus::Valid),
            (2, 1, false, "second".to_owned(), NodeStatus::Valid),
        ]
    );
    assert_eq!(pairs(&changes.started), vec![(2, "first".to_owned())]);
}

#[test]
fn membership_update_makes_the_local_node_up_where_it_is_not_named() {
    let mut table = InnerNodeManage::new(9);
    table.update_nodes_at(members(&[(9, "self")]), 10);
    table.update_nodes_at(members(&[(3, "c")]), 20);
    assert_eq!(
        shape(&table.get_all_nodes()),
        vec![
            (3, 0, false, "c".to_owned(), NodeStatus::Valid),
            (9, 1, true, "".to_owned(), NodeStatus::Valid),
        ]
    );
    assert_eq!(table.get_this_node().last_active_time, 0);
}

#[test]
fn membership_update_by_the_clock() {
    let mut table = InnerNodeManage::new(1);
    table.update_nodes(members(&[(1, "a"), (2, "b")]));
    assert!(table.get_this_node().last_active_time > 1_500_000_000_000);
    assert_eq!(texts(&table.check_node_status()), Vec::<String>::new());
    assert_eq!(table.get_all_nodes()[1].status, NodeStatus::Valid);
}

#[test]
fn peer_death() {
    let mut table = InnerNodeManage::new(1);
    table.update_nodes_at(members(&[(1, "a"), (2, "b")]), 1_000);
    table.node_add_client_at(2, Arc::new("client-1".to_owned()), 2_000);
    table.node_add_client_at(2, Arc::new("client-2".to_owned()), 2_000);
    assert_eq!(texts(&table.check_node_status_at(17_000)), Vec::<String>::new());
    assert_eq!(table.get_all_nodes()[1].status, NodeStatus::Valid);
    let purged = table.check_node_status_at(17_001);
    assert_eq!(texts(&purged), vec!["client-1".to_owned(), "client-2".to_owned()]);
    assert_eq!(table.get_all_nodes()[1].status, NodeStatus::Unvalid);
    assert_eq!(table.get_all_nodes()[0].status, NodeStatus::Valid);
    table.active_node_at(2, 18_000);
    assert_eq!(table.get_all_nodes()[1].status, NodeStatus::Valid);
    assert_eq!(texts(&table.check_node_status_at(18_000 + 15_001)), Vec::<String>::new());
    assert_eq!(table.get_all_nodes()[1].status, NodeStatus::Unvalid);
}

#[test]
fn the_local_node_is_never_found_dead() {
    let mut table = InnerNodeManage::new(1);
    table.update_nodes_at(members(&[(1, "a")]), 0);
    table.node_add_client_at(1, Arc::new("c".to_owned()), 0);
    assert_eq!(texts(&table.check_node_status_at(u64::MAX)), Vec::<String>::new());
    assert_eq!(table.get_all_nodes()[0].status, NodeStatus::Valid);
}

#[test]
fn liveness_check_before_the_timeout_has_run_changes_nothing() {
    let mut table = InnerNodeManage::new(1);
    table.update_nodes_at(members(&[(1, "a"), (2, "b")]), 0);
    assert_eq!(texts(&table.check_node_status_at(14_999)), Vec::<String>::new());
    assert_eq!(texts(&table.check_node_status_at(15_000)), Vec::<String>::new());
    assert_eq!(table.get_all_nodes()[1].status, NodeStatus::Valid);
    table.check_node_status_at(15_001);
    assert_eq!(table.get_all_nodes()[1].status, NodeStatus::Unvalid);
}

#[test]
fn a_client_is_held_once_and_an_empty_id_not_at_all() {
    let mut table = InnerNodeManage::new(1);
    table.update_nodes_at(members(&[(1, "a"), (2, "b")]), 0);
    table.node_add_client_at(2, Arc::new("c".to_owned()), 1);
    table.node_add_client_at(2, Arc::new("c".to_owned()), 2);
    table.node_add_client_at(2, Arc::new(String::new()), 3);
    table.node_add_client_at(8, Arc::new("lost".to_owned()), 3);
    assert_eq!(texts(&table.check_node_status_at(100_000)), vec!["c".to_owned()]);
}

#[test]
fn ping_goes_to_the_valid_peers() {
    let mut table = InnerNodeManage::new(2);
    table.update_nodes_at(members(&[(1, "a"), (2, "b"), (3, "c")]), 0);
    table.active_node_at(3, 10_000);
    let tick = table.hb_at(15_001);
    assert!(matches!(tick.ping.request, NamingRouteRequest::Ping(2)));
    assert_eq!(tick.ping.targets, vec![3]);
    let b = table.send_to_other_node(NamingRouteRequest::Forward(vec![1, 2, 3]));
    assert!(matches!(b.request, NamingRouteRequest::Forward(ref body) if body == &vec![1, 2, 3]));
    assert_eq!(b.targets, vec![3]);
}

#[test]
fn requests_are_served() {
    let mut table = InnerNodeManage::new(1);
    let out = table.handle_at(NodeManageRequest::UpdateNodes(members(&[(1, "a"), (2, "b")])), 5);
    assert!(matches!(out.response, NodeManageResponse::Nothing));
    assert_eq!(pairs(&out.changes.expect("changes").started), vec![(2, "b".to_owned())]);
    let out = table.handle_at(NodeManageRequest::GetThisNode, 6);
    match out.response {
        NodeManageResponse::ThisNode(n) => assert_eq!((n.id, n.index, n.is_local), (1, 0, true)),
        _ => panic!("no node"),
    }
    let out = table.handle_at(NodeManageRequest::AddClientId(2, Arc::new("c".to_owned())), 7);
    assert!(out.changes.is_none() && out.broadcast.is_none());
    let out = table.handle_at(NodeManageRequest::SendToOtherNodes(NamingRouteRequest::Ping(1)), 8);
    assert_eq!(out.broadcast.expect("broadcast").targets, vec![2]);
    table.handle_at(NodeManageRequest::ActiveNode(2), 9);
    let out = table.handle(NodeManageRequest::GetAllNodes);
    match out.response {
        NodeManageResponse::AllNodes(list) => assert_eq!(list.len(), 2),
        _ => panic!("no nodes"),
    }
}

#[test]
fn hash_routing_stability() {
    let mut table = InnerNodeManage::new(1);
    table.update_nodes_at(members(&[(1, "n1"), (2, "n2"), (3, "n3")]), 0);
    table.active_node_at(3, 10_000);
    let mut manage = NodeManage::new(table);
    let h: usize = 1_000_003;
    assert_eq!(h % 3, 1);
    assert_eq!(h % 2, 1);
    match manage.route_addr(h) {
        NamingRouteAddr::Remote(index, addr) => {
            assert_eq!(index, 1);
            assert_eq!(addr.as_str(), "n2");
        }
        NamingRouteAddr::Local(_) => panic!("routed to the local node"),
    }
    assert!(matches!(manage.route_addr(3), NamingRouteAddr::Local(0)));
    manage.inner_node_manage.check_node_status_at(15_001);
    assert_eq!(
        manage.get_all_valid_nodes().iter().map(|n| n.id).collect::<Vec<u64>>(),
        vec![1, 3]
    );
    match manage.route_addr(h) {
        NamingRouteAddr::Remote(index, addr) => {
            assert_eq!(index, 1);
            assert_eq!(addr.as_str(), "n3");
        }
        NamingRouteAddr::Local(_) => panic!("routed to the local node"),
    }
    assert!(matches!(manage.route_addr(4), NamingRouteAddr::Local(0)));
    assert_eq!(
        manage.get_other_valid_nodes().iter().map(|n| n.id).collect::<Vec<u64>>(),
        vec![3]
    );
}

#[test]
fn routing_over_an_empty_table_stays_local() {
    let manage = NodeManage::new(InnerNodeManage::new(5));
    assert!(matches!(manage.route_addr(12345), NamingRouteAddr::Local(0)));
    assert_eq!(manage.get_all_valid_nodes().len(), 1);
    assert_eq!(manage.get_other_valid_nodes().len(), 0);
}

#[test]
fn a_sign_of_life_by_the_clock_revives_a_peer() {
    let mut table = InnerNodeManage::new(1);
    table.update_nodes_at(members(&[(1, "a"), (2, "b")]), 0);
    table.check_node_status_at(20_000);
    let mut manage = NodeManage::new(table);
    assert_eq!(manage.get_all_valid_nodes().len(), 1);
    manage.active_node(2);
    assert_eq!(manage.get_all_valid_nodes().len(), 2);
}

#[test]
fn placing_anew_changes_nothing_in_a_placed_table() {
    let mut table = InnerNodeManage::new(2);
    table.update_nodes_at(members(&[(3, "c"), (1, "a"), (2, "b")]), 50);
    let before = shape(&table.get_all_nodes());
    table.update_nodes_index();
    assert_eq!(shape(&table.get_all_nodes()), before);
    assert_eq!(
        table.get_all_nodes().iter().map(|n| n.index).collect::<Vec<u64>>(),
        vec![0, 1, 2]
    );
}

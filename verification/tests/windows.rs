use psmux::windows::{
    active_pane, count_panes, list_windows_tmux, window_infos, window_trees, AppState, Node, Pane,
    Window,
};

fn pane(id: usize, title: &str, cols: u16, rows: u16) -> Node {
    Node::Leaf(Pane { id, title: title.to_string(), last_cols: cols, last_rows: rows })
}

fn sample() -> AppState {
    let w0 = Window {
        id: 10,
        name: "editor".to_string(),
        activity_flag: false,
        root: pane(1, "vim", 80, 24),
        active_path: vec![],
    };
    let w1 = Window {
        id: 11,
        name: "build".to_string(),
        activity_flag: true,
        root: Node::Split {
            children: vec![
                pane(2, "make", 40, 24),
                Node::Split { children: vec![pane(3, "log", 39, 12), pane(4, "top", 39, 11)] },
            ],
        },
        active_path: vec![1, 0],
    };
    let w2 = Window {
        id: 12,
        name: "misc".to_string(),
        activity_flag: false,
        root: Node::Split { children: vec![pane(5, "a", 10, 10), pane(6, "b", 10, 10)] },
        active_path: vec![7],
    };
    AppState { windows: vec![w0, w1, w2], active_idx: 0, window_base_index: 1 }
}

#[test]
fn tmux_listing_has_one_line_per_window() {
    let app = sample();
    assert_eq!(
        list_windows_tmux(&app),
        "1: editor* (1 panes) [80x24]\n2: build# (3 panes) [39x12]\n3: misc- (2 panes) [120x30]"
    );
}

#[test]
fn tmux_listing_of_no_windows_is_empty() {
    let app = AppState { windows: vec![], active_idx: 0, window_base_index: 0 };
    assert_eq!(list_windows_tmux(&app), "");
}

#[test]
fn active_window_flag_wins_over_activity() {
    let mut app = sample();
    app.active_idx = 1;
    app.window_base_index = 0;
    let listing = list_windows_tmux(&app);
    assert_eq!(listing.lines().nth(1), Some("1: build* (3 panes) [39x12]"));
    assert_eq!(listing.lines().next(), Some("0: editor- (1 panes) [80x24]"));
}

#[test]
fn panes_are_counted_through_nested_splits() {
    let app = sample();
    assert_eq!(count_panes(&app.windows[0].root), 1);
    assert_eq!(count_panes(&app.windows[1].root), 3);
    assert_eq!(count_panes(&Node::Split { children: vec![] }), 0);
}

#[test]
fn active_pane_follows_the_path() {
    let app = sample();
    assert_eq!(active_pane(&app.windows[1].root, &vec![1, 1]).map(|p| p.id), Some(4));
    assert_eq!(active_pane(&app.windows[1].root, &vec![0]).map(|p| p.id), Some(2));
    assert_eq!(active_pane(&app.windows[1].root, &vec![0, 5]).map(|p| p.id), Some(2));
    assert!(active_pane(&app.windows[1].root, &vec![1]).is_none());
    assert!(active_pane(&app.windows[1].root, &vec![2]).is_none());
    assert_eq!(active_pane(&app.windows[0].root, &vec![]).map(|p| p.id), Some(1));
}

#[test]
fn window_infos_describe_each_window() {
    let app = sample();
    let infos = window_infos(&app);
    assert_eq!(infos.len(), 3);
    assert_eq!((infos[0].id, infos[0].name.as_str(), infos[0].active, infos[0].activity), (10, "editor", true, false));
    assert_eq!((infos[1].id, infos[1].name.as_str(), infos[1].active, infos[1].activity), (11, "build", false, true));
    assert!(infos.iter().all(|i| i.tab_text.is_empty()));
}

#[test]
fn window_trees_list_panes_left_to_right() {
    let app = sample();
    let trees = window_trees(&app);
    assert_eq!(trees.len(), 3);
    let ids: Vec<usize> = trees[1].panes.iter().map(|p| p.id).collect();
    assert_eq!(ids, vec![2, 3, 4]);
    let titles: Vec<&str> = trees[1].panes.iter().map(|p| p.title.as_str()).collect();
    assert_eq!(titles, vec!["make", "log", "top"]);
    assert!(trees[0].active && !trees[1].active);
    assert_eq!(trees[1].panes.len(), count_panes(&app.windows[1].root));
}

#[test]
fn listing_line_shows_the_tree_pane_count() {
    let app = sample();
    let listing = list_windows_tmux(&app);
    let trees = window_trees(&app);
    let lines: Vec<&str> = listing.split('\n').collect();
    assert_eq!(lines.len(), app.windows.len());
    for (i, tree) in trees.iter().enumerate() {
        assert!(lines[i].contains(&format!(" ({} panes) [", tree.panes.len())));
    }
}

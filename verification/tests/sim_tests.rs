use ruccoon::geom::{Pos, NO_MOVE};
use ruccoon::grid::{Board, MapCell};
use ruccoon::path::PathNode;
use ruccoon::sim::{
    AgentState, Den, ScriptEvent, Sim, Tint, HUNGER_RATE, ITEM_ENERGY, MAX_ITEMS, SATIETY_MAX,
    SATIETY_START,
};

fn open_board() -> Board {
    Board::from_cells(vec![MapCell::Empty(0); 144])
}

fn board_with_walls(walls: &[(i32, i32)]) -> Board {
    let mut cells = vec![MapCell::Empty(0); 144];
    for &(x, y) in walls {
        cells[(x + y * 12) as usize] = MapCell::Wall;
    }
    Board::from_cells(cells)
}

fn agent(id: usize, x: i32, y: i32) -> AgentState {
    AgentState {
        id,
        pos: Pos { x, y },
        tint: Tint { r: 200, g: 200, b: 200 },
        satiety: SATIETY_START,
        ate: 0,
        path: None,
    }
}

#[test]
fn scenario_single_item_hunt() {
    // 12x12 open board, item at (5, 5), agent at (0, 0): the scripted
    // agent plans a path to the item and consumes one move per tick.
    let mut sim = Sim {
        board: open_board(),
        items: vec![Pos { x: 5, y: 5 }],
        dens: vec![],
        agents: vec![agent(0, 0, 0)],
    };
    assert!(sim.find_path_to_item(0));
    let cached = sim.agents[0].path.as_ref().expect("path cached");
    assert_eq!(cached.len() - 1, 10);
    let mut steps = 0;
    loop {
        let code = sim.get_next_move(0);
        if code == NO_MOVE as i64 {
            break;
        }
        sim.tick_agent(0, ScriptEvent::Suspended(code));
        steps += 1;
        assert!(steps <= 10);
    }
    assert_eq!(steps, 10);
    assert_eq!(sim.agents[0].pos, Pos { x: 5, y: 5 });
    assert!(sim.items.is_empty());
    assert_eq!(sim.agents[0].ate, 1);
}

#[test]
fn wall_blocks_movement() {
    let mut sim = Sim {
        board: board_with_walls(&[(1, 0)]),
        items: vec![],
        dens: vec![],
        agents: vec![agent(0, 0, 0)],
    };
    sim.tick_agent(0, ScriptEvent::Suspended(2)); // east, into the wall
    assert_eq!(sim.agents[0].pos, Pos { x: 0, y: 0 });
}

#[test]
fn contested_cell_goes_to_first_agent() {
    // both agents try to enter (1, 0) in the same tick; list order decides
    let mut sim = Sim {
        board: open_board(),
        items: vec![],
        dens: vec![],
        agents: vec![agent(0, 0, 0), agent(1, 2, 0)],
    };
    sim.tick_agent(0, ScriptEvent::Suspended(2)); // east into (1, 0)
    sim.tick_agent(1, ScriptEvent::Suspended(0)); // west into (1, 0)
    assert_eq!(sim.agents[0].pos, Pos { x: 1, y: 0 });
    assert_eq!(sim.agents[1].pos, Pos { x: 2, y: 0 });
}

#[test]
fn board_edges_clamp_movement() {
    let mut sim = Sim {
        board: open_board(),
        items: vec![],
        dens: vec![],
        agents: vec![agent(0, 0, 0), agent(1, 11, 11)],
    };
    sim.tick_agent(0, ScriptEvent::Suspended(0)); // west off the edge
    sim.tick_agent(0, ScriptEvent::Suspended(1)); // north off the edge
    assert_eq!(sim.agents[0].pos, Pos { x: 0, y: 0 });
    sim.tick_agent(1, ScriptEvent::Suspended(2)); // east off the edge
    sim.tick_agent(1, ScriptEvent::Suspended(3)); // south off the edge
    assert_eq!(sim.agents[1].pos, Pos { x: 11, y: 11 });
}

#[test]
fn finished_error_and_junk_codes_leave_agent_in_place() {
    let mut sim = Sim {
        board: open_board(),
        items: vec![],
        dens: vec![],
        agents: vec![agent(0, 4, 4)],
    };
    sim.tick_agent(0, ScriptEvent::Finished);
    sim.tick_agent(0, ScriptEvent::Error);
    sim.tick_agent(0, ScriptEvent::Suspended(5));
    sim.tick_agent(0, ScriptEvent::Suspended(-3));
    sim.tick_agent(0, ScriptEvent::Suspended(99));
    assert_eq!(sim.agents[0].pos, Pos { x: 4, y: 4 });
}

#[test]
fn satiety_decays_and_floors_at_zero() {
    let mut sim = Sim {
        board: open_board(),
        items: vec![],
        dens: vec![],
        agents: vec![agent(0, 0, 0)],
    };
    sim.tick_agent(0, ScriptEvent::Finished);
    assert_eq!(sim.agents[0].satiety, SATIETY_START - HUNGER_RATE);
    sim.agents[0].satiety = 3;
    sim.tick_agent(0, ScriptEvent::Finished);
    assert_eq!(sim.agents[0].satiety, 0);
    sim.tick_agent(0, ScriptEvent::Finished);
    assert_eq!(sim.agents[0].satiety, 0);
}

#[test]
fn eating_awards_with_clamp_then_decays() {
    let mut sim = Sim {
        board: open_board(),
        items: vec![Pos { x: 1, y: 0 }],
        dens: vec![],
        agents: vec![agent(0, 0, 0)],
    };
    sim.agents[0].satiety = 950;
    sim.tick_agent(0, ScriptEvent::Suspended(2)); // east onto the item
    // award clamps 950 + 200 to the full stomach, then one decay applies
    assert_eq!(sim.agents[0].satiety, SATIETY_MAX - HUNGER_RATE);
    assert_eq!(sim.agents[0].ate, 1);
    assert!(sim.items.is_empty());
}

#[test]
fn eating_awards_exact_amount_below_clamp() {
    let mut sim = Sim {
        board: open_board(),
        items: vec![Pos { x: 0, y: 1 }],
        dens: vec![],
        agents: vec![agent(0, 0, 0)],
    };
    sim.tick_agent(0, ScriptEvent::Suspended(3)); // south onto the item
    assert_eq!(
        sim.agents[0].satiety,
        SATIETY_START + ITEM_ENERGY - HUNGER_RATE
    );
}

#[test]
fn satiety_stays_in_range_over_many_ticks() {
    let mut sim = Sim {
        board: open_board(),
        items: vec![Pos { x: 1, y: 0 }, Pos { x: 1, y: 1 }, Pos { x: 0, y: 1 }],
        dens: vec![],
        agents: vec![agent(0, 0, 0)],
    };
    for t in 0..300 {
        let code = (t % 4) as i64;
        sim.tick_agent(0, ScriptEvent::Suspended(code));
        assert!(sim.agents[0].satiety <= SATIETY_MAX);
    }
}

#[test]
fn den_flag_follows_arrival_and_departure() {
    let mut sim = Sim {
        board: open_board(),
        items: vec![],
        dens: vec![Den { pos: Pos { x: 1, y: 0 }, occupied: false }],
        agents: vec![agent(0, 0, 0)],
    };
    sim.tick_agent(0, ScriptEvent::Suspended(2)); // east onto the den
    assert!(sim.dens[0].occupied);
    sim.tick_agent(0, ScriptEvent::Finished); // stays put
    assert!(sim.dens[0].occupied);
    sim.tick_agent(0, ScriptEvent::Suspended(2)); // east off the den
    assert!(!sim.dens[0].occupied);
}

#[test]
fn occupied_den_blocks_nobody_but_path_planner_skips_it() {
    let mut sim = Sim {
        board: open_board(),
        items: vec![],
        dens: vec![
            Den { pos: Pos { x: 1, y: 0 }, occupied: true },
            Den { pos: Pos { x: 5, y: 0 }, occupied: false },
        ],
        agents: vec![agent(0, 0, 0), agent(1, 1, 0)],
    };
    assert!(sim.find_path_to_den(0));
    let path = sim.agents[0].path.as_ref().expect("path cached");
    // the near den is occupied, so the plan goes to the far one
    assert_eq!(path.len() - 1, 5);
    assert_eq!(path[0].pos, Pos { x: 5, y: 0 });
}

#[test]
fn all_dens_occupied_gives_no_path() {
    let mut sim = Sim {
        board: open_board(),
        items: vec![],
        dens: vec![Den { pos: Pos { x: 1, y: 0 }, occupied: true }],
        agents: vec![agent(0, 0, 0)],
    };
    assert!(!sim.find_path_to_den(0));
    assert!(sim.agents[0].path.is_none());
}

#[test]
fn is_at_den_ignores_occupancy_flag() {
    let sim = Sim {
        board: open_board(),
        items: vec![],
        dens: vec![Den { pos: Pos { x: 2, y: 2 }, occupied: false }],
        agents: vec![agent(0, 2, 2), agent(1, 0, 0)],
    };
    assert!(sim.is_at_den(0));
    assert!(!sim.is_at_den(1));
}

#[test]
fn get_next_move_pops_from_the_start_end() {
    let mut sim = Sim {
        board: open_board(),
        items: vec![],
        dens: vec![],
        agents: vec![agent(0, 0, 0)],
    };
    sim.agents[0].path = Some(vec![
        PathNode { direction: NO_MOVE, pos: Pos { x: 2, y: 0 } },
        PathNode { direction: 2, pos: Pos { x: 1, y: 0 } },
        PathNode { direction: 2, pos: Pos { x: 0, y: 0 } },
    ]);
    assert_eq!(sim.get_next_move(0), 2);
    assert_eq!(sim.get_next_move(0), 2);
    assert_eq!(sim.get_next_move(0), NO_MOVE as i64);
    assert_eq!(sim.get_next_move(0), NO_MOVE as i64);
}

#[test]
fn get_next_move_without_path_is_sentinel() {
    let mut sim = Sim {
        board: open_board(),
        items: vec![],
        dens: vec![],
        agents: vec![agent(0, 0, 0)],
    };
    assert_eq!(sim.get_next_move(0), NO_MOVE as i64);
    assert!(sim.agents[0].path.is_none());
}

#[test]
fn find_path_to_item_caches_and_reports() {
    let mut sim = Sim {
        board: open_board(),
        items: vec![],
        dens: vec![],
        agents: vec![agent(0, 0, 0)],
    };
    assert!(!sim.find_path_to_item(0));
    assert!(sim.agents[0].path.is_none());
    sim.items.push(Pos { x: 0, y: 3 });
    assert!(sim.find_path_to_item(0));
    assert_eq!(sim.agents[0].path.as_ref().unwrap().len() - 1, 3);
}

#[test]
fn bridge_getters_report_agent_state() {
    let sim = Sim {
        board: open_board(),
        items: vec![],
        dens: vec![],
        agents: vec![agent(0, 7, 3)],
    };
    assert_eq!(sim.get_x(0), 7);
    assert_eq!(sim.get_y(0), 3);
    assert_eq!(sim.get_satiety(0), SATIETY_START);
}

#[test]
fn winning_roll_spawns_exactly_one_item() {
    let mut sim = Sim {
        board: open_board(),
        items: vec![],
        dens: vec![],
        agents: vec![],
    };
    sim.spawn_with_roll(0);
    assert_eq!(sim.items.len(), 1);
    let p = sim.items[0];
    assert!(p.x >= 0 && p.x < 12 && p.y >= 0 && p.y < 12);
    sim.spawn_with_roll(3);
    assert_eq!(sim.items.len(), 1);
    sim.spawn_with_roll(0);
    assert_eq!(sim.items.len(), 2);
    assert_ne!(sim.items[0], sim.items[1]);
}

#[test]
fn winning_roll_at_cap_spawns_nothing() {
    let mut sim = Sim {
        board: open_board(),
        items: (0..10).map(|k| Pos { x: k, y: 0 }).collect(),
        dens: vec![],
        agents: vec![],
    };
    sim.spawn_with_roll(0);
    assert_eq!(sim.items.len(), MAX_ITEMS);
}

#[test]
fn new_simulation_starts_fresh() {
    let sim = Sim::new(3, 1).expect("a 12x12 board essentially always has room");
    for a in sim.agents.iter() {
        assert_eq!(a.satiety, SATIETY_START);
        assert_eq!(a.ate, 0);
        assert!(a.path.is_none());
    }
    for d in sim.dens.iter() {
        assert!(!d.occupied);
    }
}

#[test]
fn spawn_respects_cap_and_board() {
    let mut sim = Sim {
        board: open_board(),
        items: vec![],
        dens: vec![],
        agents: vec![],
    };
    for _ in 0..2000 {
        sim.maybe_spawn_item();
        assert!(sim.items.len() <= MAX_ITEMS);
        for a in 0..sim.items.len() {
            for b in (a + 1)..sim.items.len() {
                assert_ne!(sim.items[a], sim.items[b]);
            }
        }
    }
    // with 2000 one-in-ten draws, the cap is essentially always reached
    assert_eq!(sim.items.len(), MAX_ITEMS);
}

#[test]
fn generated_board_is_well_formed() {
    let board = Board::generate();
    assert_eq!(board.cells.len(), 144);
    for c in board.cells.iter() {
        match c {
            MapCell::Wall => {}
            MapCell::Empty(deco) => assert!(*deco <= 6),
        }
    }
}

#[test]
fn new_simulation_is_well_formed() {
    let sim = Sim::new(2, 2).expect("a 12x12 board essentially always has room");
    assert_eq!(sim.agents.len(), 2);
    assert_eq!(sim.dens.len(), 2);
    assert!(sim.items.is_empty());
    for (i, a) in sim.agents.iter().enumerate() {
        assert_eq!(a.id, i);
        assert_eq!(a.satiety, SATIETY_START);
        assert_eq!(a.ate, 0);
        assert!(a.pos.x >= 0 && a.pos.x < 12 && a.pos.y >= 0 && a.pos.y < 12);
        assert!(!sim.board.cells[(a.pos.x + a.pos.y * 12) as usize].is_wall());
    }
    for d in sim.dens.iter() {
        assert!(!d.occupied);
        assert!(!sim.board.cells[(d.pos.x + d.pos.y * 12) as usize].is_wall());
    }
    assert_ne!(sim.agents[0].pos, sim.agents[1].pos);
    assert_ne!(sim.dens[0].pos, sim.dens[1].pos);
}

#[test]
fn item_under_resting_agent_is_consumed() {
    // an item spawned under an agent is eaten on that agent's next tick
    let mut sim = Sim {
        board: open_board(),
        items: vec![Pos { x: 4, y: 4 }],
        dens: vec![],
        agents: vec![agent(0, 4, 4)],
    };
    sim.tick_agent(0, ScriptEvent::Finished);
    assert!(sim.items.is_empty());
    assert_eq!(sim.agents[0].ate, 1);
}

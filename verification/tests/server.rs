use std::time::Instant;

use ascendustry::server::{
    health_bar, health_color, health_score, player_line, status_line, uptime, HealthColor, MetricsSnapshot, MetricsTracker,
    RateLimiter, ServerConfig, ServerMetrics, TuiApp, TuiCommand, TuiKey, TuiKeyCode,
};

fn key(code: TuiKeyCode, control: bool) -> TuiKey {
    TuiKey { code, control }
}

#[test]
fn default_config() {
    let c = ServerConfig::default();
    assert_eq!(c.connection_timeout_secs, 60);
    assert_eq!(c.max_packets_per_second, 60);
}

#[test]
fn rate_limiter_refuses_over_the_limit_until_the_window_ends() {
    let mut r = RateLimiter::new(2);
    let now = Instant::now();
    assert!(r.check_and_update_at(now, 10));
    assert!(r.check_and_update_at(now, 20));
    assert!(!r.check_and_update_at(now, 30));
    assert!(!r.check_and_update_at(now, 999_999_999));
    // A new window starts after one second.
    assert!(r.check_and_update_at(now, 1_000_000_000));
    assert!(r.check_and_update_at(now, 5));
    assert!(!r.check_and_update_at(now, 6));
}

#[test]
fn rate_limiter_with_the_clock() {
    let mut r = RateLimiter::new(3);
    assert!(r.check_and_update());
    let mut zero = RateLimiter::new(0);
    assert!(!zero.check_and_update());
}

#[test]
fn metrics_count_and_wrap() {
    let mut m = ServerMetrics::new();
    m.record_guard_cycle(500);
    m.record_guard_cycle(700);
    m.record_packet_received();
    m.record_packet_rejected();
    m.record_connection();
    assert_eq!(m.guard_cycle_cumul_ns, 1200);
    assert_eq!(m.guard_cycle_count, 2);
    assert_eq!(m.packets_received, 1);
    assert_eq!(m.packets_rejected, 1);
    assert_eq!(m.total_connections, 1);
    m.guard_cycle_cumul_ns = u64::MAX;
    m.record_guard_cycle(2);
    assert_eq!(m.guard_cycle_cumul_ns, 1);
}

#[test]
fn health_colors() {
    assert_eq!(health_color(20), HealthColor::Green);
    assert_eq!(health_color(15), HealthColor::Green);
    assert_eq!(health_color(14), HealthColor::Yellow);
    assert_eq!(health_color(10), HealthColor::Yellow);
    assert_eq!(health_color(9), HealthColor::Red);
}

#[test]
fn health_bar_matches_the_floating_point_layout() {
    for score in 0..=255u8 {
        let filled = (score as f64 / 20.0 * 10.0) as usize;
        let empty = 10usize.saturating_sub(filled);
        let expected = format!("{}{} {}/20", "█".repeat(filled), "░".repeat(empty), score);
        assert_eq!(health_bar(score), expected);
    }
    assert_eq!(health_bar(20), "██████████ 20/20");
    assert_eq!(health_bar(7), "███░░░░░░░ 7/20");
}

#[test]
fn health_score_matches_the_floating_point_penalties() {
    let chunk_counts = [0usize, 100_000, 100_001, 133_333, 133_334, 166_667, 200_000, 250_000, 10_000_000];
    let rejected = [0u64, 1, 2, 3, 9, 10, 11, 1000, u64::MAX];
    for g in [0u8, 3, 20, 25] {
        for r in rejected {
            for c in chunk_counts {
                let mut health = 20u8.saturating_sub(g);
                health = health.saturating_sub((r as f64 * 0.5).min(5.0) as u8);
                if c > 100_000 {
                    health = health.saturating_sub((((c - 100_000) as f64 / 100_000.0) * 3.0).min(3.0) as u8);
                }
                assert_eq!(health_score(g, r, c), health.min(20), "{} {} {}", g, r, c);
            }
        }
    }
}

#[test]
fn metrics_tracker_deltas() {
    let mut t = MetricsTracker::new();
    let d = t.advance(MetricsSnapshot {
        packets_received: 10,
        packets_rejected: 2,
        guard_cycle_count: 4,
        guard_cycle_cumul_ns: 4000,
        total_connections: 1,
    });
    assert_eq!(d.packets_received, 10);
    assert_eq!(d.packets_rejected, 2);
    assert_eq!(d.guard_cycle_avg_ns, Some(1000));
    let d = t.advance(MetricsSnapshot {
        packets_received: 15,
        packets_rejected: 2,
        guard_cycle_count: 4,
        guard_cycle_cumul_ns: 4000,
        total_connections: 1,
    });
    assert_eq!(d.packets_received, 5);
    assert_eq!(d.packets_rejected, 0);
    assert_eq!(d.guard_cycle_avg_ns, None);
}

#[test]
fn console_keys() {
    let mut app = TuiApp::new();
    let ids = [11u64, 22, 33];
    assert_eq!(TuiApp::handle_input(key(TuiKeyCode::Char('q'), false), &mut app, &ids), Some(TuiCommand::Shutdown));
    assert_eq!(TuiApp::handle_input(key(TuiKeyCode::Char('Q'), true), &mut app, &ids), Some(TuiCommand::Shutdown));
    assert_eq!(TuiApp::handle_input(key(TuiKeyCode::Char('s'), true), &mut app, &ids), Some(TuiCommand::Save));
    assert_eq!(TuiApp::handle_input(key(TuiKeyCode::Char('s'), false), &mut app, &ids), None);
    assert_eq!(TuiApp::handle_input(key(TuiKeyCode::Char('k'), false), &mut app, &ids), Some(TuiCommand::Kick(11)));
    assert_eq!(TuiApp::handle_input(key(TuiKeyCode::Up, false), &mut app, &ids), None);
    assert_eq!(app.selected_player_idx, 0);
    TuiApp::handle_input(key(TuiKeyCode::Down, false), &mut app, &ids);
    TuiApp::handle_input(key(TuiKeyCode::Down, false), &mut app, &ids);
    assert_eq!(TuiApp::handle_input(key(TuiKeyCode::Char('K'), false), &mut app, &ids), Some(TuiCommand::Kick(33)));
    TuiApp::handle_input(key(TuiKeyCode::Down, false), &mut app, &ids);
    assert_eq!(TuiApp::handle_input(key(TuiKeyCode::Char('k'), false), &mut app, &ids), None);
    assert_eq!(TuiApp::handle_input(key(TuiKeyCode::Other, false), &mut app, &ids), None);
    assert_eq!(app.scroll, 0);
}

#[test]
fn console_texts() {
    assert_eq!(uptime(0), "00:00:00");
    assert_eq!(uptime(3661), "01:01:01");
    assert_eq!(uptime(360_000), format!("{:02}:{:02}:{:02}", 100, 0, 0));
    assert_eq!(
        status_line(75, 20, 3, 42, 1000, 7),
        format!(
            " Ascendustry  |  up {}  |  {}  |  {} connectés  |  seed: {}  |  chunks: {}  modifs: {}",
            "00:01:15",
            "██████████ 20/20",
            3,
            42,
            1000,
            7
        )
    );
    assert_eq!(player_line(1, 1, "alice"), "► alice");
    assert_eq!(player_line(0, 1, "bob"), "  bob");
}

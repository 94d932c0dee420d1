use sockudo::cleanup::{CleanupConfig, WorkerThreadsConfig};

#[test]
fn test_cleanup_config_defaults() {
    let config = CleanupConfig::default();

    assert_eq!(config.queue_buffer_size, 50000);
    assert_eq!(config.batch_size, 25);
    assert_eq!(config.batch_timeout_ms, 50);
    assert!(matches!(config.worker_threads, WorkerThreadsConfig::Auto));
    assert_eq!(config.max_retry_attempts, 2);
    assert!(config.async_enabled);
    assert!(config.fallback_to_sync);
}

#[test]
fn test_worker_threads_config_resolve() {
    let auto_config = WorkerThreadsConfig::Auto;
    let resolved = auto_config.resolve();
    assert!(resolved >= 1);
    assert!(resolved <= 4);

    // A quarter of the CPUs, between 1 and 4.
    let cpu_count = num_cpus::get();
    let expected = (cpu_count / 4).max(1).min(4);
    assert_eq!(resolved, expected);

    let fixed_config = WorkerThreadsConfig::Fixed(8);
    assert_eq!(fixed_config.resolve(), 8);
}

#[test]
fn test_worker_threads_config_serialization() {
    let auto_config = WorkerThreadsConfig::Auto;
    let json = auto_config.to_json_text();
    assert_eq!(json, "\"auto\"");

    let fixed_config = WorkerThreadsConfig::Fixed(4);
    let json = fixed_config.to_json_text();
    assert_eq!(json, "4");
}

#[test]
fn test_worker_threads_config_deserialization() {
    let auto_config = WorkerThreadsConfig::from_config_str("auto").unwrap();
    assert!(matches!(auto_config, WorkerThreadsConfig::Auto));

    // Case insensitive.
    let auto_config = WorkerThreadsConfig::from_config_str("AUTO").unwrap();
    assert!(matches!(auto_config, WorkerThreadsConfig::Auto));

    // A number.
    let fixed_config = WorkerThreadsConfig::from_config_u64(4).unwrap();
    assert!(matches!(fixed_config, WorkerThreadsConfig::Fixed(4)));

    // A number written as a string.
    let fixed_config = WorkerThreadsConfig::from_config_str("8").unwrap();
    assert!(matches!(fixed_config, WorkerThreadsConfig::Fixed(8)));
}

#[test]
fn test_worker_threads_config_deserialization_errors() {
    let result = WorkerThreadsConfig::from_config_u64(0);
    assert!(result.is_err());
    assert!(result.unwrap_err().contains("greater than 0"));

    let result = WorkerThreadsConfig::from_config_str("-1");
    assert!(result.is_err());

    let result = WorkerThreadsConfig::from_config_str("invalid");
    assert!(result.is_err());
    assert!(result
        .unwrap_err()
        .contains("expected \"auto\" or positive integer"));

    let result = WorkerThreadsConfig::from_config_str("0");
    assert!(result.is_err());
    assert!(result.unwrap_err().contains("greater than 0"));
}

#[test]
fn test_cleanup_config_full_serialization_roundtrip() {
    let original_config = CleanupConfig {
        queue_buffer_size: 10000,
        batch_size: 50,
        batch_timeout_ms: 100,
        worker_threads: WorkerThreadsConfig::Fixed(3),
        max_retry_attempts: 5,
        async_enabled: false,
        fallback_to_sync: false,
    };

    // The worker setting travels as its JSON scalar; the rest are plain values.
    let text = original_config.worker_threads.to_json_text();
    let deserialized = CleanupConfig {
        worker_threads: WorkerThreadsConfig::from_config_str(&text).unwrap(),
        ..original_config
    };

    assert_eq!(deserialized.queue_buffer_size, original_config.queue_buffer_size);
    assert_eq!(deserialized.batch_size, original_config.batch_size);
    assert_eq!(deserialized.batch_timeout_ms, original_config.batch_timeout_ms);
    assert!(matches!(deserialized.worker_threads, WorkerThreadsConfig::Fixed(3)));
    assert_eq!(deserialized.max_retry_attempts, original_config.max_retry_attempts);
    assert_eq!(deserialized.async_enabled, original_config.async_enabled);
    assert_eq!(deserialized.fallback_to_sync, original_config.fallback_to_sync);
}

#[test]
fn cleanup_config_validate_reports_first_problem() {
    let ok = CleanupConfig::default();
    assert_eq!(ok.validate(), Ok(()));

    let zero_queue = CleanupConfig { queue_buffer_size: 0, ..CleanupConfig::default() };
    assert_eq!(zero_queue.validate(), Err("queue_buffer_size must be greater than 0".to_string()));

    let zero_batch = CleanupConfig { batch_size: 0, ..CleanupConfig::default() };
    assert_eq!(zero_batch.validate(), Err("batch_size must be greater than 0".to_string()));

    let zero_timeout = CleanupConfig { batch_timeout_ms: 0, ..CleanupConfig::default() };
    assert_eq!(zero_timeout.validate(), Err("batch_timeout_ms must be greater than 0".to_string()));

    let zero_workers = CleanupConfig { worker_threads: WorkerThreadsConfig::Fixed(0), ..CleanupConfig::default() };
    assert_eq!(
        zero_workers.validate(),
        Err("worker_threads must be greater than 0 when using fixed count".to_string())
    );

    let small_queue = CleanupConfig { queue_buffer_size: 10, batch_size: 25, ..CleanupConfig::default() };
    assert_eq!(
        small_queue.validate(),
        Err("queue_buffer_size (10) should be at least as large as batch_size (25)".to_string())
    );

    let slow = CleanupConfig { batch_timeout_ms: 60001, ..CleanupConfig::default() };
    assert_eq!(
        slow.validate(),
        Err("batch_timeout_ms (60001) is unusually high (> 60 seconds), this may cause delays".to_string())
    );

    let neither = CleanupConfig { async_enabled: false, fallback_to_sync: false, ..CleanupConfig::default() };
    assert_eq!(
        neither.validate(),
        Err("Either async_enabled or fallback_to_sync must be true".to_string())
    );
}

#[test]
fn worker_threads_resolution_for_given_cpu_counts() {
    assert_eq!(WorkerThreadsConfig::Auto.resolve_with_cpus(1), 1);
    assert_eq!(WorkerThreadsConfig::Auto.resolve_with_cpus(8), 2);
    assert_eq!(WorkerThreadsConfig::Auto.resolve_with_cpus(64), 4);
    assert_eq!(WorkerThreadsConfig::Fixed(7).resolve_with_cpus(64), 7);
    assert_eq!(WorkerThreadsConfig::from_config_str("+12"), Ok(WorkerThreadsConfig::Fixed(12)));
    assert_eq!(WorkerThreadsConfig::Fixed(1234567).to_json_text(), "1234567");
}
